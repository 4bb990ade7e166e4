//! Character-level text utilities with exact specifications.
//!
//! Everything in this module works on `Seq<char>` views of `&str` / `String`.
//! The spec functions here are the vocabulary in which the codec contracts of
//! the rest of the crate are written.

use vstd::prelude::*;

verus! {

/// The whitespace characters recognised by the tokenizer and trimmer: the
/// Unicode white-space set.
pub open spec fn is_space(c: char) -> bool {
    ||| c == ' '
    ||| c == '\t'
    ||| c == '\n'
    ||| c == '\u{000B}'
    ||| c == '\u{000C}'
    ||| c == '\r'
    ||| c == '\u{0085}'
    ||| c == '\u{00A0}'
    ||| c == '\u{1680}'
    ||| ('\u{2000}' <= c && c <= '\u{200A}')
    ||| c == '\u{2028}'
    ||| c == '\u{2029}'
    ||| c == '\u{202F}'
    ||| c == '\u{205F}'
    ||| c == '\u{3000}'
}

/// Whether any character of `s` is whitespace.
pub open spec fn has_space(s: Seq<char>) -> bool {
    exists|i: int| 0 <= i < s.len() && is_space(s[i])
}

/// Length of the maximal whitespace-free prefix of `s`.
pub open spec fn tok_len(s: Seq<char>) -> nat
    decreases s.len(),
{
    if s.len() == 0 || is_space(s[0]) {
        0
    } else {
        1 + tok_len(s.skip(1))
    }
}

/// The whitespace-separated tokens of `s`, in order.
pub open spec fn tokens_of(s: Seq<char>) -> Seq<Seq<char>>
    decreases s.len(),
    via tokens_of_dec
{
    if s.len() == 0 {
        Seq::empty()
    } else if is_space(s[0]) {
        tokens_of(s.skip(1))
    } else {
        seq![s.take(tok_len(s) as int)] + tokens_of(s.skip(tok_len(s) as int))
    }
}

#[via_fn]
proof fn tokens_of_dec(s: Seq<char>) {
    if s.len() != 0 && !is_space(s[0]) {
        lemma_tok_len_le(s);
    }
}

pub proof fn lemma_tok_len_le(s: Seq<char>)
    ensures
        tok_len(s) <= s.len(),
    decreases s.len(),
{
    if s.len() == 0 || is_space(s[0]) {
    } else {
        lemma_tok_len_le(s.skip(1));
    }
}

/// `tok_len` is the first whitespace position (or the length if none).
pub proof fn lemma_tok_len_at(s: Seq<char>, m: int)
    requires
        0 <= m <= s.len(),
        forall|k: int| 0 <= k < m ==> !is_space(s[k]),
        m == s.len() || is_space(s[m]),
    ensures
        tok_len(s) == m,
    decreases s.len(),
{
    if m == 0 {
    } else {
        assert(!is_space(s[0]));
        assert(forall|k: int| 0 <= k < m - 1 ==> s.skip(1)[k] == s[k + 1]);
        lemma_tok_len_at(s.skip(1), m - 1);
    }
}

exec fn is_space_char(c: char) -> (r: bool)
    ensures
        r == is_space(c),
{
    c == ' ' || c == '\t' || c == '\n' || c == '\u{000B}' || c == '\u{000C}' || c == '\r' || c
        == '\u{0085}' || c == '\u{00A0}' || c == '\u{1680}' || ('\u{2000}' <= c && c
        <= '\u{200A}') || c == '\u{2028}' || c == '\u{2029}' || c == '\u{202F}' || c
        == '\u{205F}' || c == '\u{3000}'
}

/// Splits `s` into its whitespace-separated tokens.
pub fn tokenize(s: &str) -> (toks: Vec<String>)
    ensures
        toks.deep_view() == tokens_of(s@),
{
    let n: usize = s.unicode_len();
    let mut toks: Vec<String> = Vec::new();
    let mut i: usize = 0;
    proof {
        assert(s@.skip(0) =~= s@);
        assert(toks.deep_view() =~~= Seq::<Seq<char>>::empty());
    }
    while i < n
        invariant
            i <= n,
            n == s@.len(),
            toks.deep_view() + tokens_of(s@.skip(i as int)) =~~= tokens_of(s@),
        decreases n - i,
    {
        if is_space_char(s.get_char(i)) {
            proof {
                assert(s@.skip(i as int).skip(1) =~= s@.skip(i + 1));
            }
            i = i + 1;
        } else {
            let start: usize = i;
            let mut j: usize = i + 1;
            while j < n
                invariant_except_break
                    j == n || !is_space(s@[j - 1]),
                invariant
                    start <= j <= n,
                    n == s@.len(),
                    forall|k: int| start <= k < j ==> !is_space(s@[k]),
                ensures
                    forall|k: int| start <= k < j ==> !is_space(s@[k]),
                    j == n || is_space(s@[j as int]),
                decreases n - j,
            {
                if is_space_char(s.get_char(j)) {
                    break;
                }
                j = j + 1;
            }
            let tok = s.substring_char(start, j);
            toks.push(String::from_str(tok));
            proof {
                let rest = s@.skip(start as int);
                assert(forall|k: int| 0 <= k < j - start ==> rest[k] == s@[k + start]);
                assert(j - start == rest.len() || is_space(rest[j - start]));
                lemma_tok_len_at(rest, j - start);
                assert(rest.take(j - start) =~= s@.subrange(start as int, j as int));
                assert(rest.skip(j - start) =~= s@.skip(j as int));
                assert(tokens_of(rest) =~~= seq![s@.subrange(start as int, j as int)]
                    + tokens_of(s@.skip(j as int)));
                assert(toks.deep_view() + tokens_of(s@.skip(j as int)) =~~= tokens_of(s@));
            }
            i = j;
        }
    }
    proof {
        assert(s@.skip(n as int) =~= Seq::<char>::empty());
        assert(toks.deep_view() =~~= tokens_of(s@));
    }
    toks
}

/// Number of whitespace characters at the front of `s`.
pub open spec fn leading_spaces(s: Seq<char>) -> nat
    decreases s.len(),
{
    if s.len() > 0 && is_space(s[0]) {
        1 + leading_spaces(s.skip(1))
    } else {
        0
    }
}

/// Number of whitespace characters at the back of `s`.
pub open spec fn trailing_spaces(s: Seq<char>) -> nat
    decreases s.len(),
{
    if s.len() > 0 && is_space(s.last()) {
        1 + trailing_spaces(s.drop_last())
    } else {
        0
    }
}

/// `s` with leading and trailing whitespace removed.
pub open spec fn trim_of(s: Seq<char>) -> Seq<char> {
    if leading_spaces(s) == s.len() {
        Seq::empty()
    } else {
        s.subrange(leading_spaces(s) as int, s.len() - trailing_spaces(s))
    }
}

pub proof fn lemma_leading_spaces_at(s: Seq<char>, m: int)
    requires
        0 <= m <= s.len(),
        forall|k: int| 0 <= k < m ==> is_space(s[k]),
        m == s.len() || !is_space(s[m]),
    ensures
        leading_spaces(s) == m,
    decreases s.len(),
{
    if m == 0 {
    } else {
        assert(forall|k: int| 0 <= k < m - 1 ==> s.skip(1)[k] == s[k + 1]);
        lemma_leading_spaces_at(s.skip(1), m - 1);
    }
}

pub proof fn lemma_trailing_spaces_at(s: Seq<char>, t: int)
    requires
        0 <= t <= s.len(),
        forall|k: int| s.len() - t <= k < s.len() ==> is_space(s[k]),
        t == s.len() || !is_space(s[s.len() - t - 1]),
    ensures
        trailing_spaces(s) == t,
    decreases s.len(),
{
    if t == 0 {
    } else {
        assert(is_space(s.last()));
        assert(forall|k: int| 0 <= k < s.len() - 1 ==> s.drop_last()[k] == s[k]);
        lemma_trailing_spaces_at(s.drop_last(), t - 1);
    }
}

/// Removes leading and trailing whitespace.
pub fn trim(s: &str) -> (r: String)
    ensures
        r@ == trim_of(s@),
{
    let n: usize = s.unicode_len();
    let mut a: usize = 0;
    while a < n && is_space_char(s.get_char(a))
        invariant
            a <= n,
            n == s@.len(),
            forall|k: int| 0 <= k < a ==> is_space(s@[k]),
        decreases n - a,
    {
        a = a + 1;
    }
    if a == n {
        proof {
            lemma_leading_spaces_at(s@, n as int);
        }
        return String::new();
    }
    let mut b: usize = n;
    while b > a && is_space_char(s.get_char(b - 1))
        invariant
            a <= b <= n,
            n == s@.len(),
            forall|k: int| b <= k < n ==> is_space(s@[k]),
        decreases b,
    {
        b = b - 1;
    }
    proof {
        lemma_leading_spaces_at(s@, a as int);
        assert(!is_space(s@[b - 1]));
        lemma_trailing_spaces_at(s@, n - b);
    }
    let piece = s.substring_char(a, b);
    String::from_str(piece)
}

/// Index of the first occurrence of `c` in `s`.
pub open spec fn find_char_of(s: Seq<char>, c: char) -> Option<int>
    decreases s.len(),
{
    if s.len() == 0 {
        None
    } else if s[0] == c {
        Some(0int)
    } else {
        match find_char_of(s.skip(1), c) {
            Some(i) => Some(i + 1),
            None => None,
        }
    }
}

pub proof fn lemma_find_char_bounds(s: Seq<char>, c: char)
    ensures
        match find_char_of(s, c) {
            Some(i) => 0 <= i < s.len() && s[i] == c && forall|k: int| 0 <= k < i ==> s[k] != c,
            None => forall|k: int| 0 <= k < s.len() ==> s[k] != c,
        },
    decreases s.len(),
{
    if s.len() == 0 {
    } else if s[0] == c {
    } else {
        lemma_find_char_bounds(s.skip(1), c);
        assert(forall|k: int| 1 <= k < s.len() ==> s[k] == s.skip(1)[k - 1]);
    }
}

pub proof fn lemma_find_char_at(s: Seq<char>, c: char, m: int)
    requires
        0 <= m <= s.len(),
        forall|k: int| 0 <= k < m ==> s[k] != c,
        m == s.len() || s[m] == c,
    ensures
        find_char_of(s, c) == if m == s.len() {
            None::<int>
        } else {
            Some(m)
        },
    decreases s.len(),
{
    if m == 0 {
        if s.len() > 0 {
        }
    } else {
        assert(forall|k: int| 0 <= k < m - 1 ==> s.skip(1)[k] == s[k + 1]);
        lemma_find_char_at(s.skip(1), c, m - 1);
    }
}

/// First position of `c` in `s`, if any.
pub fn find_char(s: &str, c: char) -> (r: Option<usize>)
    ensures
        match find_char_of(s@, c) {
            Some(i) => r == Some(i as usize),
            None => r == None::<usize>,
        },
{
    let n: usize = s.unicode_len();
    let mut i: usize = 0;
    while i < n
        invariant
            i <= n,
            n == s@.len(),
            forall|k: int| 0 <= k < i ==> s@[k] != c,
        decreases n - i,
    {
        if s.get_char(i) == c {
            proof {
                lemma_find_char_at(s@, c, i as int);
            }
            return Some(i);
        }
        i = i + 1;
    }
    proof {
        lemma_find_char_at(s@, c, n as int);
    }
    None
}

/// The pieces of `s` between occurrences of `c` (empty pieces kept, so the
/// result always has one more piece than `s` has occurrences of `c`).
pub open spec fn split_char_of(s: Seq<char>, c: char) -> Seq<Seq<char>>
    decreases s.len(),
    via split_char_of_dec
{
    match find_char_of(s, c) {
        None => seq![s],
        Some(i) => seq![s.take(i)] + split_char_of(s.skip(i + 1), c),
    }
}

#[via_fn]
proof fn split_char_of_dec(s: Seq<char>, c: char) {
    lemma_find_char_bounds(s, c);
}

/// Splits `s` on every occurrence of `c`.
pub fn split_char(s: &str, c: char) -> (r: Vec<String>)
    ensures
        r.deep_view() == split_char_of(s@, c),
{
    let n: usize = s.unicode_len();
    let mut r: Vec<String> = Vec::new();
    let mut start: usize = 0;
    let mut i: usize = 0;
    proof {
        assert(s@.skip(0) =~= s@);
        assert(r.deep_view() =~~= Seq::<Seq<char>>::empty());
    }
    while i < n
        invariant
            start <= i <= n,
            n == s@.len(),
            forall|k: int| start <= k < i ==> s@[k] != c,
            r.deep_view() + split_char_of(s@.skip(start as int), c) =~~= split_char_of(s@, c),
        decreases n - i,
    {
        if s.get_char(i) == c {
            let piece = s.substring_char(start, i);
            r.push(String::from_str(piece));
            proof {
                let rest = s@.skip(start as int);
                assert(forall|k: int| 0 <= k < i - start ==> rest[k] == s@[k + start]);
                assert(rest[i - start] == c);
                lemma_find_char_at(rest, c, i - start);
                assert(rest.take(i - start) =~= s@.subrange(start as int, i as int));
                assert(rest.skip(i - start + 1) =~= s@.skip(i + 1));
                assert(r.deep_view() + split_char_of(s@.skip(i + 1), c) =~~= split_char_of(
                    s@,
                    c,
                ));
            }
            i = i + 1;
            start = i;
        } else {
            i = i + 1;
        }
    }
    let piece = s.substring_char(start, n);
    r.push(String::from_str(piece));
    proof {
        let rest = s@.skip(start as int);
        assert(forall|k: int| 0 <= k < n - start ==> rest[k] == s@[k + start]);
        lemma_find_char_at(rest, c, n - start);
        assert(rest =~= s@.subrange(start as int, n as int));
        assert(r.deep_view() =~~= split_char_of(s@, c));
    }
    r
}

/// `parts` joined with the separator `sep` between consecutive parts.
pub open spec fn join_with(parts: Seq<Seq<char>>, sep: Seq<char>) -> Seq<char>
    decreases parts.len(),
{
    if parts.len() == 0 {
        Seq::empty()
    } else if parts.len() == 1 {
        parts[0]
    } else {
        parts[0] + sep + join_with(parts.skip(1), sep)
    }
}

pub proof fn lemma_join_with_push(parts: Seq<Seq<char>>, sep: Seq<char>, x: Seq<char>)
    ensures
        join_with(parts.push(x), sep) == if parts.len() == 0 {
            x
        } else {
            join_with(parts, sep) + sep + x
        },
    decreases parts.len(),
{
    if parts.len() == 0 {
        assert(parts.push(x)[0] == x);
        assert(join_with(parts.push(x), sep) == x);
    } else if parts.len() == 1 {
        assert(parts.push(x).skip(1) =~~= seq![x]);
        assert(seq![x][0] == x);
        assert(join_with(seq![x], sep) == x);
        assert(parts.push(x)[0] == parts[0]);
        assert(join_with(parts.push(x), sep) == parts[0] + sep + x);
        assert(join_with(parts, sep) == parts[0]);
    } else {
        lemma_join_with_push(parts.skip(1), sep, x);
        assert(parts.push(x).skip(1) =~~= parts.skip(1).push(x));
        assert(join_with(parts.push(x), sep) == parts[0] + sep + join_with(
            parts.skip(1).push(x),
            sep,
        ));
        assert(join_with(parts, sep) + sep + x =~= parts[0] + sep + (join_with(parts.skip(1), sep)
            + sep + x));
    }
}

/// Joins `parts` with `sep` between consecutive parts.
pub fn join(parts: &Vec<String>, sep: &str) -> (r: String)
    ensures
        r@ == join_with(parts.deep_view(), sep@),
{
    let mut r = String::new();
    let mut i: usize = 0;
    while i < parts.len()
        invariant
            i <= parts.deep_view().len(),
            parts.deep_view().len() == parts@.len(),
            r@ == join_with(parts.deep_view().take(i as int), sep@),
        decreases parts.len() - i,
    {
        if i > 0 {
            r.append(sep);
        }
        r.append(parts[i].as_str());
        proof {
            assert(parts.deep_view().take(i + 1) =~~= parts.deep_view().take(i as int).push(
                parts.deep_view()[i as int],
            ));
            lemma_join_with_push(parts.deep_view().take(i as int), sep@, parts.deep_view()[i as int]);
        }
        i = i + 1;
    }
    proof {
        assert(parts.deep_view().take(parts.deep_view().len() as int) =~~= parts.deep_view());
    }
    r
}

/// `p` is an initial segment of `s`.
pub open spec fn is_prefix(p: Seq<char>, s: Seq<char>) -> bool {
    p.len() <= s.len() && p == s.take(p.len() as int)
}

/// Whether `s` starts with `p`.
pub fn starts_with(s: &str, p: &str) -> (r: bool)
    ensures
        r == is_prefix(p@, s@),
{
    let n: usize = s.unicode_len();
    let m: usize = p.unicode_len();
    if m > n {
        return false;
    }
    let mut i: usize = 0;
    while i < m
        invariant
            i <= m <= n,
            n == s@.len(),
            m == p@.len(),
            forall|k: int| 0 <= k < i ==> p@[k] == s@[k],
        decreases m - i,
    {
        if s.get_char(i) != p.get_char(i) {
            proof {
                assert(p@[i as int] != s@.take(m as int)[i as int]);
            }
            return false;
        }
        i = i + 1;
    }
    proof {
        assert(p@ =~= s@.take(m as int));
    }
    true
}

/// `p` occurs in `s` starting at position `i`.
pub open spec fn match_at(s: Seq<char>, p: Seq<char>, i: int) -> bool {
    0 <= i && i + p.len() <= s.len() && p == s.subrange(i, i + p.len())
}

/// `p` occurs somewhere in `s`.
pub open spec fn contains_seq(s: Seq<char>, p: Seq<char>) -> bool {
    exists|i: int| match_at(s, p, i)
}

fn match_at_exec(s: &str, p: &str, i: usize) -> (r: bool)
    requires
        i <= s@.len(),
    ensures
        r == match_at(s@, p@, i as int),
{
    let n: usize = s.unicode_len();
    let m: usize = p.unicode_len();
    if m > n - i {
        return false;
    }
    let mut k: usize = 0;
    while k < m
        invariant
            k <= m,
            i + m <= n,
            n == s@.len(),
            m == p@.len(),
            forall|j: int| 0 <= j < k ==> p@[j] == s@[i + j],
        decreases m - k,
    {
        if s.get_char(i + k) != p.get_char(k) {
            proof {
                assert(s@.subrange(i as int, i + m)[k as int] == s@[i + k]);
            }
            return false;
        }
        k = k + 1;
    }
    proof {
        assert(p@ =~= s@.subrange(i as int, i + m));
    }
    true
}

/// Whether the text `p` occurs anywhere in `s`.
pub fn contains_sub(s: &str, p: &str) -> (r: bool)
    ensures
        r == contains_seq(s@, p@),
{
    let n: usize = s.unicode_len();
    let m: usize = p.unicode_len();
    if m > n {
        proof {
            assert(forall|i: int| !match_at(s@, p@, i));
        }
        return false;
    }
    if m == 0 {
        proof {
            assert(p@ =~= s@.subrange(0, 0));
            assert(match_at(s@, p@, 0));
        }
        return true;
    }
    let mut i: usize = 0;
    while i <= n - m
        invariant
            i <= n - m + 1,
            1 <= m <= n,
            n == s@.len(),
            m == p@.len(),
            forall|k: int| 0 <= k < i ==> !match_at(s@, p@, k),
        decreases n - i,
    {
        if match_at_exec(s, p, i) {
            proof {
                assert(match_at(s@, p@, i as int));
            }
            return true;
        }
        i = i + 1;
    }
    proof {
        assert(forall|k: int| k >= i ==> !match_at(s@, p@, k));
        assert(forall|k: int| !match_at(s@, p@, k));
    }
    false
}

/// First position where the text `p` occurs in `s`, if any.
pub open spec fn find_sub_of(s: Seq<char>, p: Seq<char>) -> Option<int>
    decreases s.len(),
{
    if is_prefix(p, s) {
        Some(0int)
    } else if s.len() == 0 {
        None
    } else {
        match find_sub_of(s.skip(1), p) {
            Some(i) => Some(i + 1),
            None => None,
        }
    }
}

pub proof fn lemma_find_sub_some(s: Seq<char>, p: Seq<char>, m: int)
    requires
        0 <= m,
        match_at(s, p, m),
        forall|k: int| 0 <= k < m ==> !match_at(s, p, k),
    ensures
        find_sub_of(s, p) == Some(m),
    decreases s.len(),
{
    if m == 0 {
        assert(p =~= s.take(p.len() as int));
    } else {
        assert(!is_prefix(p, s)) by {
            if is_prefix(p, s) {
                assert(s.take(p.len() as int) =~= s.subrange(0, p.len() as int));
                assert(match_at(s, p, 0));
            }
        }
        assert(match_at(s.skip(1), p, m - 1)) by {
            assert(s.skip(1).subrange(m - 1, m - 1 + p.len()) =~= s.subrange(m, m + p.len()));
        }
        assert(forall|k: int| 0 <= k < m - 1 ==> !match_at(s.skip(1), p, k)) by {
            assert forall|k: int| 0 <= k < m - 1 && match_at(s.skip(1), p, k) implies false by {
                assert(s.subrange(k + 1, k + 1 + p.len()) =~= s.skip(1).subrange(
                    k,
                    k + p.len(),
                ));
                assert(match_at(s, p, k + 1));
            }
        }
        lemma_find_sub_some(s.skip(1), p, m - 1);
    }
}

pub proof fn lemma_find_sub_none(s: Seq<char>, p: Seq<char>)
    requires
        forall|k: int| !match_at(s, p, k),
    ensures
        find_sub_of(s, p) == None::<int>,
    decreases s.len(),
{
    assert(!is_prefix(p, s)) by {
        if is_prefix(p, s) {
            assert(s.take(p.len() as int) =~= s.subrange(0, p.len() as int));
            assert(match_at(s, p, 0));
        }
    }
    if s.len() > 0 {
        assert(forall|k: int| 0 <= k ==> !match_at(s.skip(1), p, k)) by {
            assert forall|k: int| 0 <= k && match_at(s.skip(1), p, k) implies false by {
                assert(s.subrange(k + 1, k + 1 + p.len()) =~= s.skip(1).subrange(
                    k,
                    k + p.len(),
                ));
                assert(match_at(s, p, k + 1));
            }
        }
        assert(forall|k: int| !match_at(s.skip(1), p, k)) by {
            assert(forall|k: int| k < 0 ==> !match_at(s.skip(1), p, k));
        }
        lemma_find_sub_none(s.skip(1), p);
    }
}

pub proof fn lemma_find_sub_bounds(s: Seq<char>, p: Seq<char>)
    ensures
        match find_sub_of(s, p) {
            Some(i) => 0 <= i && i + p.len() <= s.len() && match_at(s, p, i),
            None => true,
        },
    decreases s.len(),
{
    if is_prefix(p, s) {
        assert(s.take(p.len() as int) =~= s.subrange(0, p.len() as int));
        assert(match_at(s, p, 0));
    } else if s.len() == 0 {
    } else {
        lemma_find_sub_bounds(s.skip(1), p);
        match find_sub_of(s.skip(1), p) {
            Some(i) => {
                assert(s.subrange(i + 1, i + 1 + p.len()) =~= s.skip(1).subrange(
                    i,
                    i + p.len(),
                ));
                assert(match_at(s, p, i + 1));
            },
            None => {},
        }
    }
}

/// First position of the text `p` in `s`, if any.
pub fn find_sub(s: &str, p: &str) -> (r: Option<usize>)
    ensures
        match find_sub_of(s@, p@) {
            Some(i) => r == Some(i as usize),
            None => r == None::<usize>,
        },
{
    let n: usize = s.unicode_len();
    let m: usize = p.unicode_len();
    if m > n {
        proof {
            assert(forall|i: int| !match_at(s@, p@, i));
            lemma_find_sub_none(s@, p@);
        }
        return None;
    }
    if m == 0 {
        proof {
            assert(p@ =~= s@.take(0));
            assert(is_prefix(p@, s@));
        }
        return Some(0);
    }
    let mut i: usize = 0;
    while i <= n - m
        invariant
            i <= n - m + 1,
            1 <= m <= n,
            n == s@.len(),
            m == p@.len(),
            forall|k: int| 0 <= k < i ==> !match_at(s@, p@, k),
        decreases n - i,
    {
        if match_at_exec(s, p, i) {
            proof {
                lemma_find_sub_some(s@, p@, i as int);
            }
            return Some(i);
        }
        i = i + 1;
    }
    proof {
        assert(forall|k: int| k >= i ==> !match_at(s@, p@, k));
        assert(forall|k: int| !match_at(s@, p@, k));
        lemma_find_sub_none(s@, p@);
    }
    None
}

/// `to`, then the characters of `s` each followed by `to` again: the result
/// of substituting the empty pattern everywhere.
pub open spec fn interleave_of(s: Seq<char>, to: Seq<char>) -> Seq<char>
    decreases s.len(),
{
    if s.len() == 0 {
        to
    } else {
        to + seq![s[0]] + interleave_of(s.skip(1), to)
    }
}

/// `s` with every non-overlapping occurrence of `from` replaced by `to`,
/// scanning left to right; with an empty `from`, `to` is inserted at every
/// character boundary.
pub open spec fn replace_of(s: Seq<char>, from: Seq<char>, to: Seq<char>) -> Seq<char>
    decreases s.len(),
{
    if from.len() == 0 {
        interleave_of(s, to)
    } else if s.len() == 0 {
        Seq::empty()
    } else if is_prefix(from, s) {
        to + replace_of(s.skip(from.len() as int), from, to)
    } else {
        seq![s[0]] + replace_of(s.skip(1), from, to)
    }
}

/// Replaces every occurrence of `from` in `s` by `to`.
pub fn replace(s: &str, from: &str, to: &str) -> (r: String)
    ensures
        r@ == replace_of(s@, from@, to@),
{
    let n: usize = s.unicode_len();
    let flen: usize = from.unicode_len();
    let mut r = String::new();
    proof {
        assert(s@.skip(0) =~= s@);
    }
    if flen == 0 {
        let mut i: usize = 0;
        while i < n
            invariant
                i <= n,
                n == s@.len(),
                0 == from@.len(),
                r@ + interleave_of(s@.skip(i as int), to@) == replace_of(s@, from@, to@),
            decreases n - i,
        {
            r.append(to);
            let piece = s.substring_char(i, i + 1);
            r.append(piece);
            proof {
                assert(s@.skip(i as int)[0] == s@[i as int]);
                assert(s@.subrange(i as int, i + 1) =~= seq![s@[i as int]]);
                assert(s@.skip(i as int).skip(1) =~= s@.skip(i + 1));
                assert(r@ + interleave_of(s@.skip(i + 1), to@) =~= replace_of(s@, from@, to@));
            }
            i = i + 1;
        }
        r.append(to);
        proof {
            assert(s@.skip(n as int) =~= Seq::<char>::empty());
        }
        return r;
    }
    let mut i: usize = 0;
    while i < n
        invariant
            i <= n,
            n == s@.len(),
            flen == from@.len(),
            flen >= 1,
            r@ + replace_of(s@.skip(i as int), from@, to@) == replace_of(s@, from@, to@),
        decreases n - i,
    {
        if match_at_exec(s, from, i) {
            r.append(to);
            proof {
                let rest = s@.skip(i as int);
                assert(rest.take(flen as int) =~= s@.subrange(i as int, i + flen));
                assert(is_prefix(from@, rest));
                assert(rest.skip(flen as int) =~= s@.skip(i + flen));
                assert(r@ + replace_of(s@.skip(i + flen), from@, to@) =~= replace_of(
                    s@,
                    from@,
                    to@,
                ));
            }
            i = i + flen;
        } else {
            let piece = s.substring_char(i, i + 1);
            r.append(piece);
            proof {
                let rest = s@.skip(i as int);
                assert(!is_prefix(from@, rest)) by {
                    if is_prefix(from@, rest) {
                        assert(from@ == rest.take(flen as int));
                        assert(rest.take(flen as int) =~= s@.subrange(i as int, i + flen));
                        assert(match_at(s@, from@, i as int));
                    }
                }
                assert(rest[0] == s@[i as int]);
                assert(s@.subrange(i as int, i + 1) =~= seq![s@[i as int]]);
                assert(rest.skip(1) =~= s@.skip(i + 1));
                assert(r@ + replace_of(s@.skip(i + 1), from@, to@) =~= replace_of(
                    s@,
                    from@,
                    to@,
                ));
            }
            i = i + 1;
        }
    }
    proof {
        assert(s@.skip(n as int) =~= Seq::<char>::empty());
    }
    r
}

/// Filtering a sequence extended by one element: the element stays iff it
/// satisfies the predicate.
pub proof fn lemma_filter_push<A>(s: Seq<A>, pred: spec_fn(A) -> bool, x: A)
    ensures
        s.push(x).filter(pred) == if pred(x) {
            s.filter(pred).push(x)
        } else {
            s.filter(pred)
        },
    decreases s.len(),
{
    reveal(Seq::filter);
    assert(s.push(x).drop_last() =~= s);
    assert(s.push(x).last() == x);
}

/// Whether any character of `s` is whitespace.
pub fn has_space_str(s: &str) -> (r: bool)
    ensures
        r == has_space(s@),
{
    let n: usize = s.unicode_len();
    let mut i: usize = 0;
    while i < n
        invariant
            i <= n,
            n == s@.len(),
            forall|k: int| 0 <= k < i ==> !is_space(s@[k]),
        decreases n - i,
    {
        if is_space_char(s.get_char(i)) {
            return true;
        }
        i = i + 1;
    }
    false
}

/// Character-wise equality of two string slices.
pub fn str_eq(a: &str, b: &str) -> (r: bool)
    ensures
        r == (a@ == b@),
{
    let n: usize = a.unicode_len();
    let m: usize = b.unicode_len();
    if n != m {
        return false;
    }
    let mut i: usize = 0;
    while i < n
        invariant
            i <= n,
            n == a@.len(),
            n == b@.len(),
            forall|k: int| 0 <= k < i ==> a@[k] == b@[k],
        decreases n - i,
    {
        if a.get_char(i) != b.get_char(i) {
            return false;
        }
        i = i + 1;
    }
    proof {
        assert(a@ =~= b@);
    }
    true
}

/// Elementwise equality of two vectors of strings.
pub fn vec_str_eq(a: &Vec<String>, b: &Vec<String>) -> (r: bool)
    ensures
        r == (a.deep_view() == b.deep_view()),
{
    if a.len() != b.len() {
        proof {
            assert(a.deep_view().len() != b.deep_view().len());
        }
        return false;
    }
    let mut i: usize = 0;
    while i < a.len()
        invariant
            i <= a@.len(),
            a@.len() == b@.len(),
            forall|k: int| 0 <= k < i ==> a.deep_view()[k] == b.deep_view()[k],
        decreases a@.len() - i,
    {
        if !str_eq(a[i].as_str(), b[i].as_str()) {
            proof {
                assert(a.deep_view()[i as int] != b.deep_view()[i as int]);
            }
            return false;
        }
        i = i + 1;
    }
    proof {
        assert(a.deep_view() =~~= b.deep_view());
    }
    true
}

/// `l` with a single trailing carriage return removed.
pub open spec fn strip_cr(l: Seq<char>) -> Seq<char> {
    if l.len() > 0 && l.last() == '\r' {
        l.drop_last()
    } else {
        l
    }
}

/// The lines of `s`: pieces between newline characters, each with one
/// trailing carriage return removed, and no final empty piece when `s` ends
/// with a newline (or is empty).
pub open spec fn lines_of(s: Seq<char>) -> Seq<Seq<char>> {
    let ps = split_char_of(s, '\n');
    let kept = if s.len() == 0 {
        Seq::<Seq<char>>::empty()
    } else if s.last() == '\n' {
        ps.drop_last()
    } else {
        ps
    };
    kept.map_values(|l: Seq<char>| strip_cr(l))
}

proof fn lemma_split_char_last_empty(s: Seq<char>, c: char)
    requires
        s.len() > 0,
        s.last() == c,
    ensures
        split_char_of(s, c).len() > 0,
        split_char_of(s, c).last().len() == 0,
    decreases s.len(),
{
    lemma_find_char_bounds(s, c);
    match find_char_of(s, c) {
        None => {
            assert(s[s.len() - 1] == c);
        },
        Some(i) => {
            let rest = s.skip(i + 1);
            let whole = split_char_of(s, c);
            assert(whole == seq![s.take(i)] + split_char_of(rest, c));
            if i + 1 == s.len() {
                assert(rest =~= Seq::<char>::empty());
                assert(find_char_of(rest, c) == None::<int>);
                assert(split_char_of(rest, c) == seq![rest]);
                assert(whole.last() == rest);
            } else {
                assert(rest.last() == s.last());
                lemma_split_char_last_empty(rest, c);
                assert(whole.last() == split_char_of(rest, c).last());
            }
        },
    }
}

/// Splits `s` into its lines, following the conventions of `lines_of`.
pub fn split_lines(s: &str) -> (r: Vec<String>)
    ensures
        r.deep_view() == lines_of(s@),
{
    let n: usize = s.unicode_len();
    let mut pieces = split_char(s, '\n');
    if n == 0 {
        let mut out: Vec<String> = Vec::new();
        proof {
            assert(out.deep_view() =~~= lines_of(s@));
        }
        return out;
    }
    if s.get_char(n - 1) == '\n' {
        proof {
            lemma_split_char_last_empty(s@, '\n');
        }
        pieces.pop();
        proof {
            assert(pieces.deep_view() =~~= split_char_of(s@, '\n').drop_last());
        }
    }
    let ghost kept = pieces.deep_view();
    let mut out: Vec<String> = Vec::new();
    let mut i: usize = 0;
    while i < pieces.len()
        invariant
            i <= pieces@.len(),
            pieces.deep_view() == kept,
            out.deep_view().len() == i,
            forall|k: int| 0 <= k < i ==> out.deep_view()[k] == strip_cr(kept[k]),
        decreases pieces@.len() - i,
    {
        let ghost prev = out.deep_view();
        let p = &pieces[i];
        let plen: usize = p.as_str().unicode_len();
        if plen > 0 && p.as_str().get_char(plen - 1) == '\r' {
            let stripped = p.as_str().substring_char(0, plen - 1);
            out.push(String::from_str(stripped));
            proof {
                assert(forall|k: int| 0 <= k < prev.len() ==> out.deep_view()[k] == prev[k]);
                assert(kept[i as int] == p@);
                assert(p@.last() == p@[plen - 1]);
                assert(p@.subrange(0, plen - 1) =~= p@.drop_last());
                assert(strip_cr(kept[i as int]) == p@.drop_last());
                assert(out.deep_view()[i as int] == strip_cr(kept[i as int]));
            }
        } else {
            let copy = String::from_str(pieces[i].as_str());
            out.push(copy);
            proof {
                assert(forall|k: int| 0 <= k < prev.len() ==> out.deep_view()[k] == prev[k]);
                assert(kept[i as int] == p@);
                if p@.len() > 0 {
                    assert(p@.last() == p@[plen - 1]);
                }
                assert(strip_cr(kept[i as int]) == kept[i as int]);
                assert(out.deep_view()[i as int] == strip_cr(kept[i as int]));
            }
        }
        proof {
            assert forall|k: int| 0 <= k < i + 1 implies out.deep_view()[k] == strip_cr(
                kept[k],
            ) by {
                if k < i {
                    assert(out.deep_view()[k] == prev[k]);
                    assert(prev[k] == strip_cr(kept[k]));
                }
            }
        }
        i = i + 1;
    }
    proof {
        assert(out.deep_view() =~~= kept.map_values(|l: Seq<char>| strip_cr(l)));
        assert(out.deep_view() =~~= lines_of(s@));
    }
    out
}

/// `s` with all trailing `/` characters removed.
pub open spec fn strip_trailing_slashes(s: Seq<char>) -> Seq<char>
    decreases s.len(),
{
    if s.len() > 0 && s.last() == '/' {
        strip_trailing_slashes(s.drop_last())
    } else {
        s
    }
}

/// Removes every trailing `/` from `s`.
pub fn trim_trailing_slashes(s: &str) -> (r: String)
    ensures
        r@ == strip_trailing_slashes(s@),
{
    let n: usize = s.unicode_len();
    let mut b: usize = n;
    proof {
        assert(s@.take(n as int) =~= s@);
    }
    while b > 0 && s.get_char(b - 1) == '/'
        invariant
            b <= n,
            n == s@.len(),
            strip_trailing_slashes(s@.take(b as int)) == strip_trailing_slashes(s@),
        decreases b,
    {
        proof {
            let cur = s@.take(b as int);
            assert(cur.last() == s@[b - 1]);
            assert(cur.drop_last() =~= s@.take(b - 1));
        }
        b = b - 1;
    }
    proof {
        let cur = s@.take(b as int);
        if b > 0 {
            assert(cur.last() == s@[b - 1]);
        }
        assert(strip_trailing_slashes(cur) == cur);
    }
    let piece = s.substring_char(0, b);
    String::from_str(piece)
}

} // verus!
