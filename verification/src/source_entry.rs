//! The unified, format-agnostic representation of one repository mapping
//! (one URI and one suite), and the one-line codec for it.

use vstd::prelude::*;
use crate::errors::SourceError;
use crate::errors::SourceErrorView;
use crate::signature::Signature;
use crate::signature::SignatureView;
use crate::text;

verus! {

/// One `key = values` option pair, as a mathematical value.
pub type OptPairView = (Seq<char>, Seq<Seq<char>>);

/// Mathematical model of a [`SourceEntry`].
#[verifier::ext_equal]
pub struct EntryView {
    pub enabled: bool,
    pub source: bool,
    pub options: Seq<OptPairView>,
    pub url: Seq<char>,
    pub suite: Seq<char>,
    pub components: Seq<Seq<char>>,
    pub archs: Option<Seq<Seq<char>>>,
    pub signed_by: Option<SignatureView>,
    pub trusted: bool,
    pub is_deb822: bool,
}

/// An apt source entry: one resolved repository mapping.
#[derive(Debug, Clone)]
pub struct SourceEntry {
    /// Whether the entry is enabled or not.
    pub enabled: bool,
    /// Whether this is a binary (`deb`) or source (`deb-src`) repo.
    pub source: bool,
    /// Options other than the reserved ones, in order of appearance.
    pub options: Vec<(String, Vec<String>)>,
    /// The URL of the repo, stored exactly as read.
    pub url: String,
    /// The suite of the repo, such as `bionic` or `cosmic`.
    pub suite: String,
    /// Components that have been enabled for this repo.
    pub components: Vec<String>,
    /// Architectures binaries from this repository run on.
    pub archs: Option<Vec<String>>,
    /// The `signed-by` key material, when given.
    pub signed_by: Option<Signature>,
    /// Whether the repository is marked trusted.
    pub trusted: bool,
    /// Which serialization branch the entry belongs to.
    pub is_deb822: bool,
}

impl View for SourceEntry {
    type V = EntryView;

    open spec fn view(&self) -> EntryView {
        EntryView {
            enabled: self.enabled,
            source: self.source,
            options: self.options.deep_view(),
            url: self.url@,
            suite: self.suite@,
            components: self.components.deep_view(),
            archs: self.archs.deep_view(),
            signed_by: match self.signed_by {
                Some(ref sig) => Some(sig@),
                None => None,
            },
            trusted: self.trusted,
            is_deb822: self.is_deb822,
        }
    }
}

impl DeepView for SourceEntry {
    type V = EntryView;

    open spec fn deep_view(&self) -> EntryView {
        self.view()
    }
}

/// Copies a vector of strings.
pub fn clone_vec_str(v: &Vec<String>) -> (r: Vec<String>)
    ensures
        r.deep_view() == v.deep_view(),
        r@ == v@,
{
    let r = v.clone();
    proof {
        assert(r@ =~= v@);
        assert(r.deep_view() =~~= v.deep_view());
    }
    r
}

/// Copies an option list.
pub fn clone_opts(v: &Vec<(String, Vec<String>)>) -> (r: Vec<(String, Vec<String>)>)
    ensures
        r.deep_view() == v.deep_view(),
{
    let mut r: Vec<(String, Vec<String>)> = Vec::new();
    let mut i: usize = 0;
    while i < v.len()
        invariant
            i <= v@.len(),
            r.deep_view().len() == i,
            forall|k: int| 0 <= k < i ==> r.deep_view()[k] == v.deep_view()[k],
        decreases v@.len() - i,
    {
        let ghost prev = r.deep_view();
        let key = String::from_str(v[i].0.as_str());
        let vals = clone_vec_str(&v[i].1);
        r.push((key, vals));
        proof {
            assert forall|k: int| 0 <= k < i + 1 implies r.deep_view()[k] == v.deep_view()[k] by {
                if k < i {
                    assert(r.deep_view()[k] == prev[k]);
                }
            }
        }
        i = i + 1;
    }
    proof {
        assert(r.deep_view() =~~= v.deep_view());
    }
    r
}

/// First index of a pair whose key is `k`, if any.
pub open spec fn find_key(pairs: Seq<OptPairView>, k: Seq<char>) -> Option<int>
    decreases pairs.len(),
{
    if pairs.len() == 0 {
        None
    } else if pairs[0].0 == k {
        Some(0int)
    } else {
        match find_key(pairs.skip(1), k) {
            Some(i) => Some(i + 1),
            None => None,
        }
    }
}

pub proof fn lemma_find_key_at(pairs: Seq<OptPairView>, k: Seq<char>, m: int)
    requires
        0 <= m <= pairs.len(),
        forall|j: int| 0 <= j < m ==> pairs[j].0 != k,
        m == pairs.len() || pairs[m].0 == k,
    ensures
        find_key(pairs, k) == if m == pairs.len() {
            None::<int>
        } else {
            Some(m)
        },
    decreases pairs.len(),
{
    if m == 0 {
    } else {
        assert(forall|j: int| 0 <= j < m - 1 ==> pairs.skip(1)[j] == pairs[j + 1]);
        lemma_find_key_at(pairs.skip(1), k, m - 1);
    }
}

/// The `key = values` pair encoded by one option token: the key is the text
/// before the first `=` (the whole token when there is none), the values are
/// the comma-separated pieces after it.
pub open spec fn pair_of_token(t: Seq<char>) -> OptPairView {
    match text::find_char_of(t, '=') {
        None => (t, text::split_char_of(Seq::empty(), ',')),
        Some(p) => (t.take(p), text::split_char_of(t.skip(p + 1), ',')),
    }
}

/// The option pairs encoded by a raw bracket-block body.
pub open spec fn opt_pairs_of(raw: Seq<char>) -> Seq<OptPairView> {
    text::tokens_of(raw).map_values(|t: Seq<char>| pair_of_token(t))
}

/// The option pairs with every pair keyed `k` removed.
pub open spec fn drop_key(pairs: Seq<OptPairView>, k: Seq<char>) -> Seq<OptPairView>
    decreases pairs.len(),
{
    if pairs.len() == 0 {
        Seq::empty()
    } else if pairs[0].0 == k {
        drop_key(pairs.skip(1), k)
    } else {
        seq![pairs[0]] + drop_key(pairs.skip(1), k)
    }
}

/// The values of the first pair keyed `k`, if any.
pub open spec fn key_values(pairs: Seq<OptPairView>, k: Seq<char>) -> Option<Seq<Seq<char>>> {
    match find_key(pairs, k) {
        Some(i) => Some(pairs[i].1),
        None => None,
    }
}

/// Builds an entry out of the parsed pieces of a line: the kind flag, the raw
/// option pairs, the URL token and the tokens after it.  The reserved keys
/// `arch`, `signed-by` and `trusted` are taken out of the option pairs
/// entirely; their typed values come from the first occurrence of each.
pub open spec fn entry_assemble(
    src: bool,
    pairs: Seq<OptPairView>,
    url: Seq<char>,
    tail: Seq<Seq<char>>,
) -> Result<EntryView, SourceErrorView> {
    if tail.len() == 0 {
        Err(SourceErrorView::MissingField { field: "suite"@ })
    } else {
        let p1 = drop_key(pairs, "arch"@);
        let p2 = drop_key(p1, "signed-by"@);
        let p3 = drop_key(p2, "trusted"@);
        Ok(
            EntryView {
                enabled: true,
                source: src,
                options: p3,
                url,
                suite: tail[0],
                components: tail.skip(1),
                archs: key_values(pairs, "arch"@),
                signed_by: match key_values(p1, "signed-by"@) {
                    Some(vals) => Some(SignatureView::KeyPath(vals)),
                    None => None,
                },
                trusted: match key_values(p2, "trusted"@) {
                    Some(vals) => vals.len() > 0 && vals[0] == "yes"@,
                    None => false,
                },
                is_deb822: false,
            },
        )
    }
}

/// The option pairs with every pair keyed `k` filtered out.
fn drop_key_exec(pairs: &Vec<(String, Vec<String>)>, k: &str) -> (r: Vec<(String, Vec<String>)>)
    ensures
        r.deep_view() == drop_key(pairs.deep_view(), k@),
{
    let ghost pv = pairs.deep_view();
    let mut r: Vec<(String, Vec<String>)> = Vec::new();
    let mut i: usize = 0;
    proof {
        assert(pv.skip(0) =~~= pv);
        assert(r.deep_view() + drop_key(pv, k@) =~~= drop_key(pv, k@));
    }
    while i < pairs.len()
        invariant
            i <= pairs@.len(),
            pairs.deep_view() == pv,
            r.deep_view() + drop_key(pv.skip(i as int), k@) =~~= drop_key(pv, k@),
        decreases pairs@.len() - i,
    {
        let ghost prev = r.deep_view();
        proof {
            assert(pv.skip(i as int)[0] == pv[i as int]);
            assert(pv.skip(i as int).skip(1) =~~= pv.skip(i + 1));
        }
        if !text::str_eq(pairs[i].0.as_str(), k) {
            let key = String::from_str(pairs[i].0.as_str());
            let vals = clone_vec_str(&pairs[i].1);
            r.push((key, vals));
            proof {
                let rest = drop_key(pv.skip(i + 1), k@);
                assert(prev + (seq![pv[i as int]] + rest) =~~= r.deep_view() + rest);
            }
        } else {
            proof {
                assert(pv[i as int].0 == k@);
            }
        }
        i = i + 1;
    }
    proof {
        assert(pv.skip(pairs@.len() as int) =~~= Seq::<OptPairView>::empty());
        assert(drop_key(Seq::<OptPairView>::empty(), k@) =~~= Seq::<OptPairView>::empty());
        assert(r.deep_view() + Seq::<OptPairView>::empty() =~~= r.deep_view());
    }
    r
}

/// Takes the reserved keys out of the raw option pairs: the `arch` values,
/// the `signed-by` key paths and the `trusted` flag from the first occurrence
/// of each, plus the pairs that are left as generic options — every
/// occurrence of a reserved key removed.
fn extract_reserved(pairs: Vec<(String, Vec<String>)>) -> (r: (
    Option<Vec<String>>,
    Option<Signature>,
    bool,
    Vec<(String, Vec<String>)>,
))
    ensures
        ({
            let pv = pairs.deep_view();
            let p1 = drop_key(pv, "arch"@);
            let p2 = drop_key(p1, "signed-by"@);
            &&& r.0.deep_view() == key_values(pv, "arch"@)
            &&& (match key_values(p1, "signed-by"@) {
                Some(vals) => r.1 matches Some(sig) && sig@ == SignatureView::KeyPath(vals),
                None => r.1 matches None,
            })
            &&& r.2 == (match key_values(p2, "trusted"@) {
                Some(vals) => vals.len() > 0 && vals[0] == "yes"@,
                None => false,
            })
            &&& r.3.deep_view() == drop_key(p2, "trusted"@)
        }),
{
    let ghost pv = pairs.deep_view();
    let mut archs: Option<Vec<String>> = None;
    match find_key_exec(&pairs, "arch") {
        Some(pos) => {
            archs = Some(clone_vec_str(&pairs[pos].1));
        },
        None => {},
    }
    let work1 = drop_key_exec(&pairs, "arch");
    let mut signed_by: Option<Signature> = None;
    match find_key_exec(&work1, "signed-by") {
        Some(pos) => {
            signed_by = Some(Signature::KeyPath(clone_vec_str(&work1[pos].1)));
        },
        None => {},
    }
    let work2 = drop_key_exec(&work1, "signed-by");
    let mut trusted = false;
    match find_key_exec(&work2, "trusted") {
        Some(pos) => {
            trusted = work2[pos].1.len() > 0 && text::str_eq(work2[pos].1[0].as_str(), "yes");
        },
        None => {},
    }
    let work3 = drop_key_exec(&work2, "trusted");
    (archs, signed_by, trusted, work3)
}

/// Parsing one line's whitespace tokens as an entry.  The first token selects
/// binary or source; the next either is the URL or opens a bracketed option
/// block that runs to the first `]`; text directly after the `]` becomes the
/// URL, otherwise the next token does; then the suite and the components.
pub open spec fn entry_parse_tokens(toks: Seq<Seq<char>>) -> Result<EntryView, SourceErrorView> {
    if toks.len() == 0 {
        Err(SourceErrorView::MissingField { field: "source"@ })
    } else if !(toks[0] == "deb"@ || toks[0] == "deb-src"@) {
        Err(SourceErrorView::InvalidValue { field: "source"@, value: toks[0] })
    } else {
        let src = toks[0] == "deb-src"@;
        let rest = toks.skip(1);
        if rest.len() == 0 {
            Err(SourceErrorView::MissingField { field: "url"@ })
        } else {
            let t1 = rest[0];
            if t1.len() > 0 && t1[0] == '[' {
                let joined = text::join_with(rest, seq![' ']).skip(1);
                match text::find_char_of(joined, ']') {
                    None => Err(SourceErrorView::MissingField { field: "option"@ }),
                    Some(p) => {
                        let after = joined.skip(p + 1);
                        let urltoks = text::tokens_of(after);
                        if urltoks.len() == 0 {
                            Err(SourceErrorView::MissingField { field: "url"@ })
                        } else {
                            entry_assemble(
                                src,
                                opt_pairs_of(joined.take(p)),
                                urltoks[0],
                                urltoks.skip(1),
                            )
                        }
                    },
                }
            } else {
                entry_assemble(src, Seq::empty(), t1, rest.skip(1))
            }
        }
    }
}

/// Parsing one line of a sources list as an (enabled) entry.
pub open spec fn entry_parse_of(s: Seq<char>) -> Result<EntryView, SourceErrorView> {
    entry_parse_tokens(text::tokens_of(s))
}

/// The one-line text of a `key = values` option pair.
pub open spec fn opt_token_of(p: OptPairView) -> Seq<char> {
    p.0 + seq!['='] + text::join_with(p.1, seq![','])
}

/// The one-line rendering of an entry: the `# ` prefix when disabled, the
/// kind keyword, the bracketed generic options when there are any, then URL,
/// suite and components.  The `archs`, `signed_by` and `trusted` fields are
/// not emitted: the one-line format loses them on write-back.
pub open spec fn entry_render(e: EntryView) -> Seq<char> {
    let head: Seq<char> = if !e.enabled {
        "# "@
    } else {
        Seq::empty()
    };
    let kind: Seq<char> = if e.source {
        "deb-src "@
    } else {
        "deb "@
    };
    let opts: Seq<char> = if e.options.len() > 0 {
        seq!['['] + text::join_with(e.options.map_values(|p: OptPairView| opt_token_of(p)), seq![' '])
            + seq![']', ' ']
    } else {
        Seq::empty()
    };
    head + kind + opts + e.url + seq![' '] + e.suite + seq![' '] + text::join_with(
        e.components,
        seq![' '],
    )
}

/// The stored URL with trailing slashes stripped.
pub open spec fn url_of(e: EntryView) -> Seq<char> {
    text::strip_trailing_slashes(e.url)
}

/// The base filename for the entry: the URL with everything up to and
/// including its first `//` dropped (when present), then every slash
/// replaced by an underscore.
pub open spec fn filename_of(e: EntryView) -> Seq<char> {
    let u = url_of(e);
    let v = match text::find_sub_of(u, "//"@) {
        Some(p) => u.skip(p + 2),
        None => u,
    };
    text::replace_of(v, "/"@, "_"@)
}

/// The root URL of the entry's dist path.
pub open spec fn dist_path_of(e: EntryView) -> Seq<char> {
    url_of(e) + "/dists/"@ + e.suite
}

/// A path under the entry's dist path.
pub open spec fn dist_path_get_of(e: EntryView, p: Seq<char>) -> Seq<char> {
    dist_path_of(e) + seq!['/'] + p
}

/// The dist paths of all the entry's components, in order.
pub open spec fn dist_components_of(e: EntryView) -> Seq<Seq<char>> {
    e.components.map_values(|c: Seq<char>| dist_path_get_of(e, c))
}

/// The root URL of the entry's pool path.
pub open spec fn pool_path_of(e: EntryView) -> Seq<char> {
    url_of(e) + "/pool/"@
}

/// A parsed one-line entry is enabled and tagged for the one-line format.
pub proof fn lemma_entry_parse_line_format(s: Seq<char>)
    ensures
        entry_parse_of(s) matches Ok(e) ==> !e.is_deb822 && e.enabled,
{
}

proof fn lemma_join_first(parts: Seq<Seq<char>>, sep: Seq<char>)
    requires
        parts.len() >= 1,
    ensures
        text::join_with(parts, sep).len() >= parts[0].len(),
        text::join_with(parts, sep).take(parts[0].len() as int) == parts[0],
{
    if parts.len() == 1 {
        assert(text::join_with(parts, sep) == parts[0]);
        assert(parts[0].take(parts[0].len() as int) =~= parts[0]);
    } else {
        let j = text::join_with(parts, sep);
        assert(j == parts[0] + sep + text::join_with(parts.skip(1), sep));
        assert(j.take(parts[0].len() as int) =~= parts[0]);
    }
}

fn find_key_exec(pairs: &Vec<(String, Vec<String>)>, k: &str) -> (r: Option<usize>)
    ensures
        match r {
            Some(u) => u < pairs@.len() && find_key(pairs.deep_view(), k@) == Some(u as int),
            None => find_key(pairs.deep_view(), k@) == None::<int>,
        },
{
    let mut i: usize = 0;
    while i < pairs.len()
        invariant
            i <= pairs@.len(),
            pairs.deep_view().len() == pairs@.len(),
            forall|j: int| 0 <= j < i ==> pairs.deep_view()[j].0 != k@,
        decreases pairs@.len() - i,
    {
        if text::str_eq(pairs[i].0.as_str(), k) {
            proof {
                assert(pairs.deep_view()[i as int].0 == k@);
                lemma_find_key_at(pairs.deep_view(), k@, i as int);
            }
            return Some(i);
        }
        proof {
            assert(pairs.deep_view()[i as int].0 != k@);
        }
        i = i + 1;
    }
    proof {
        lemma_find_key_at(pairs.deep_view(), k@, pairs.deep_view().len() as int);
    }
    None
}

/// Splits one option token into its `key = values` pair.
fn pair_of_token_exec(t: &str) -> (r: (String, Vec<String>))
    ensures
        r.deep_view() == pair_of_token(t@),
{
    match text::find_char(t, '=') {
        None => {
            let vals = text::split_char("", ',');
            proof {
                reveal_strlit("");
                assert(""@ =~= Seq::<char>::empty());
            }
            (String::from_str(t), vals)
        },
        Some(p) => {
            proof {
                text::lemma_find_char_bounds(t@, '=');
            }
            let n: usize = t.unicode_len();
            let key = t.substring_char(0, p);
            let valstr = t.substring_char(p + 1, n);
            let vals = text::split_char(valstr, ',');
            proof {
                assert(key@ =~= t@.take(p as int));
                assert(valstr@ =~= t@.skip(p + 1));
            }
            (String::from_str(key), vals)
        },
    }
}

/// Copies the elements of `toks` from position `from` on.
fn clone_from(toks: &Vec<String>, from: usize) -> (r: Vec<String>)
    requires
        from <= toks@.len(),
    ensures
        r.deep_view() == toks.deep_view().skip(from as int),
{
    let mut r: Vec<String> = Vec::new();
    let mut i: usize = from;
    while i < toks.len()
        invariant
            from <= i <= toks@.len(),
            r.deep_view() =~~= toks.deep_view().skip(from as int).take(i - from),
        decreases toks@.len() - i,
    {
        let ghost prev = r.deep_view();
        r.push(String::from_str(toks[i].as_str()));
        proof {
            let sk = toks.deep_view().skip(from as int);
            assert(sk.take(i + 1 - from) =~~= sk.take(i - from).push(toks.deep_view()[i as int]));
            assert(r.deep_view() =~~= prev.push(toks.deep_view()[i as int]));
        }
        i = i + 1;
    }
    proof {
        let sk = toks.deep_view().skip(from as int);
        assert(sk.take(sk.len() as int) =~~= sk);
        assert(r.deep_view() =~~= sk);
    }
    r
}

/// Splits a raw option-block body into its option pairs.
fn opt_pairs_exec(raw: &str) -> (r: Vec<(String, Vec<String>)>)
    ensures
        r.deep_view() == opt_pairs_of(raw@),
{
    let toks = text::tokenize(raw);
    let mut r: Vec<(String, Vec<String>)> = Vec::new();
    let ghost tv = toks.deep_view();
    let mut i: usize = 0;
    while i < toks.len()
        invariant
            i <= toks@.len(),
            toks.deep_view() == tv,
            r.deep_view().len() == i,
            forall|j: int| 0 <= j < i ==> r.deep_view()[j] == pair_of_token(tv[j]),
        decreases toks@.len() - i,
    {
        let ghost prev = r.deep_view();
        let pair = pair_of_token_exec(toks[i].as_str());
        r.push(pair);
        proof {
            assert forall|j: int| 0 <= j < i + 1 implies r.deep_view()[j] == pair_of_token(
                tv[j],
            ) by {
                if j < i {
                    assert(r.deep_view()[j] == prev[j]);
                }
            }
        }
        i = i + 1;
    }
    proof {
        assert(r.deep_view() =~~= tv.map_values(|t: Seq<char>| pair_of_token(t)));
    }
    r
}

impl SourceEntry {
    /// Parses one line of the classic format as an enabled entry.  Returns
    /// exactly the entry that `entry_parse_of` describes, or the error it
    /// describes: a missing leading `deb`/`deb-src` keyword, URL, unclosed
    /// option block or missing suite each name the field concerned.
    #[verifier::rlimit(60)]
    pub fn parse(line: &str) -> (r: Result<SourceEntry, SourceError>)
        ensures
            match r {
                Ok(e) => entry_parse_of(line@) == Ok::<EntryView, SourceErrorView>(e@),
                Err(er) => entry_parse_of(line@) == Err::<EntryView, SourceErrorView>(er@),
            },
    {
        let toks = text::tokenize(line);
        let ghost tv = text::tokens_of(line@);
        if toks.len() == 0 {
            return Err(SourceError::MissingField { field: String::from_str("source") });
        }
        let is_deb = text::str_eq(toks[0].as_str(), "deb");
        let is_deb_src = text::str_eq(toks[0].as_str(), "deb-src");
        if !is_deb && !is_deb_src {
            return Err(
                SourceError::InvalidValue {
                    field: String::from_str("source"),
                    value: String::from_str(toks[0].as_str()),
                },
            );
        }
        let src = is_deb_src;
        if toks.len() == 1 {
            proof {
                assert(tv.skip(1) =~~= Seq::<Seq<char>>::empty());
            }
            return Err(SourceError::MissingField { field: String::from_str("url") });
        }
        let rest = clone_from(&toks, 1);
        let ghost restv = tv.skip(1);
        let t1_is_bracket = toks[1].as_str().unicode_len() > 0 && toks[1].as_str().get_char(0)
            == '[';
        let url: String;
        let mut tail: Vec<String> = Vec::new();
        let mut opt_pairs: Vec<(String, Vec<String>)> = Vec::new();
        if t1_is_bracket {
            let joined_full = text::join(&rest, " ");
            proof {
                reveal_strlit(" ");
                assert(" "@ =~= seq![' ']);
                lemma_join_first(restv, seq![' ']);
                assert(restv[0][0] == '[');
                assert(text::join_with(restv, seq![' '])[0] == '[') by {
                    assert(text::join_with(restv, seq![' ']).take(restv[0].len() as int)[0]
                        == text::join_with(restv, seq![' '])[0]);
                }
            }
            let jn: usize = joined_full.as_str().unicode_len();
            let jstr = joined_full.as_str().substring_char(1, jn);
            let ghost joined = text::join_with(restv, seq![' ']).skip(1);
            proof {
                assert(jstr@ =~= joined);
            }
            match text::find_char(jstr, ']') {
                None => {
                    return Err(SourceError::MissingField { field: String::from_str("option") });
                },
                Some(p) => {
                    proof {
                        text::lemma_find_char_bounds(joined, ']');
                    }
                    let jlen: usize = jstr.unicode_len();
                    let optraw = jstr.substring_char(0, p);
                    let after = jstr.substring_char(p + 1, jlen);
                    proof {
                        assert(optraw@ =~= joined.take(p as int));
                        assert(after@ =~= joined.skip(p + 1));
                    }
                    let urltoks = text::tokenize(after);
                    if urltoks.len() == 0 {
                        return Err(SourceError::MissingField { field: String::from_str("url") });
                    }
                    opt_pairs = opt_pairs_exec(optraw);
                    url = String::from_str(urltoks[0].as_str());
                    tail = clone_from(&urltoks, 1);
                },
            }
        } else {
            url = String::from_str(toks[1].as_str());
            tail = clone_from(&toks, 2);
            proof {
                assert(tv.skip(2) =~~= restv.skip(1));
                assert(opt_pairs.deep_view() =~~= Seq::<OptPairView>::empty());
                assert(url@ == restv[0]);
            }
        }
        // From here on, the spec side is entry_assemble(src, pairs, url@, tailv).
        let ghost pairsv = opt_pairs.deep_view();
        let ghost tailv = tail.deep_view();
        if tail.len() == 0 {
            return Err(SourceError::MissingField { field: String::from_str("suite") });
        }
        let suite = String::from_str(tail[0].as_str());
        let components = clone_from(&tail, 1);
        let extracted = extract_reserved(opt_pairs);
        let entry = SourceEntry {
            enabled: true,
            source: src,
            url,
            suite,
            components,
            options: extracted.3,
            is_deb822: false,
            archs: extracted.0,
            signed_by: extracted.1,
            trusted: extracted.2,
        };
        proof {
            assert(entry_assemble(src, pairsv, url@, tailv) == Ok::<EntryView, SourceErrorView>(
                entry@,
            )) by {
                let spec_e = entry_assemble(src, pairsv, url@, tailv)->Ok_0;
                assert(spec_e =~= entry@);
            }
        }
        Ok(entry)
    }

    /// Renders the entry in the one-line format.  Only entries tagged for
    /// that format may be rendered this way; `archs`, `signed_by` and
    /// `trusted` are dropped, an intentional, documented gap.
    pub fn render(&self) -> (r: String)
        requires
            !self@.is_deb822,
        ensures
            r@ == entry_render(self@),
    {
        let mut r = String::new();
        if !self.enabled {
            r.append("# ");
        }
        if self.source {
            r.append("deb-src ");
        } else {
            r.append("deb ");
        }
        let ghost head_kind = r@;
        if self.options.len() > 0 {
            let mut toks: Vec<String> = Vec::new();
            let ghost ov = self.options.deep_view();
            let mut i: usize = 0;
            while i < self.options.len()
                invariant
                    i <= self.options@.len(),
                    self.options.deep_view() == ov,
                    toks.deep_view().len() == i,
                    forall|k: int| 0 <= k < i ==> toks.deep_view()[k] == opt_token_of(ov[k]),
                decreases self.options@.len() - i,
            {
                let ghost prev = toks.deep_view();
                let mut tok = String::from_str(self.options[i].0.as_str());
                tok.append("=");
                let vals = text::join(&self.options[i].1, ",");
                tok.append(vals.as_str());
                proof {
                    reveal_strlit("=");
                    reveal_strlit(",");
                    assert("="@ =~= seq!['=']);
                    assert(","@ =~= seq![',']);
                    assert(tok@ =~= opt_token_of(ov[i as int]));
                }
                toks.push(tok);
                proof {
                    assert forall|k: int| 0 <= k < i + 1 implies toks.deep_view()[k]
                        == opt_token_of(ov[k]) by {
                        if k < i {
                            assert(toks.deep_view()[k] == prev[k]);
                        }
                    }
                }
                i = i + 1;
            }
            r.append("[");
            let joined = text::join(&toks, " ");
            r.append(joined.as_str());
            r.append("] ");
            proof {
                reveal_strlit("[");
                reveal_strlit("] ");
                reveal_strlit(" ");
                assert("["@ =~= seq!['[']);
                assert("] "@ =~= seq![']', ' ']);
                assert(" "@ =~= seq![' ']);
                assert(toks.deep_view() =~~= ov.map_values(|p: OptPairView| opt_token_of(p)));
                assert(r@ =~= head_kind + (seq!['['] + text::join_with(
                    ov.map_values(|p: OptPairView| opt_token_of(p)),
                    seq![' '],
                ) + seq![']', ' ']));
            }
        }
        r.append(self.url.as_str());
        r.append(" ");
        r.append(self.suite.as_str());
        r.append(" ");
        let comps = text::join(&self.components, " ");
        r.append(comps.as_str());
        proof {
            reveal_strlit(" ");
            assert(" "@ =~= seq![' ']);
            assert(r@ =~= entry_render(self@));
        }
        r
    }

    /// The stored URL without its trailing slashes.  The stored value itself
    /// is left as read.
    pub fn url(&self) -> (r: String)
        ensures
            r@ == url_of(self@),
    {
        text::trim_trailing_slashes(self.url.as_str())
    }

    /// The base filename to be used when storing files for this entry.
    pub fn filename(&self) -> (r: String)
        ensures
            r@ == filename_of(self@),
    {
        let u = self.url();
        proof {
            text::lemma_find_sub_bounds(u@, "//"@);
            reveal_strlit("//");
        }
        let ulen: usize = u.as_str().unicode_len();
        let v = match text::find_sub(u.as_str(), "//") {
            Some(p) => u.as_str().substring_char(p + 2, ulen),
            None => u.as_str(),
        };
        proof {
            match text::find_sub_of(u@, "//"@) {
                Some(p) => {
                    assert(v@ =~= u@.skip(p + 2));
                },
                None => {},
            }
        }
        text::replace(v, "/", "_")
    }

    /// The root URL for this entry's dist path: the trimmed URL, `/dists/`
    /// and the suite.
    pub fn dist_path(&self) -> (r: String)
        ensures
            r@ == dist_path_of(self@),
    {
        let mut r = self.url();
        r.append("/dists/");
        r.append(self.suite.as_str());
        r
    }

    /// A path under this entry's dist path.
    pub fn dist_path_get(&self, path: &str) -> (r: String)
        ensures
            r@ == dist_path_get_of(self@, path@),
    {
        let mut r = self.dist_path();
        r.append("/");
        r.append(path);
        proof {
            reveal_strlit("/");
            assert("/"@ =~= seq!['/']);
        }
        r
    }

    /// The dist paths of each of the entry's components, in order.
    pub fn dist_components(&self) -> (r: Vec<String>)
        ensures
            r.deep_view() == dist_components_of(self@),
    {
        let mut r: Vec<String> = Vec::new();
        let ghost cv = self.components.deep_view();
        let mut i: usize = 0;
        while i < self.components.len()
            invariant
                i <= self.components@.len(),
                self.components.deep_view() == cv,
                r.deep_view().len() == i,
                forall|k: int| 0 <= k < i ==> r.deep_view()[k] == dist_path_get_of(self@, cv[k]),
        decreases self.components@.len() - i,
        {
            let ghost prev = r.deep_view();
            let one = self.dist_path_get(self.components[i].as_str());
            r.push(one);
            proof {
                assert forall|k: int| 0 <= k < i + 1 implies r.deep_view()[k] == dist_path_get_of(
                    self@,
                    cv[k],
                ) by {
                    if k < i {
                        assert(r.deep_view()[k] == prev[k]);
                    }
                }
            }
            i = i + 1;
        }
        proof {
            assert(r.deep_view() =~~= dist_components_of(self@));
        }
        r
    }

    /// The root URL for this entry's pool path.
    pub fn pool_path(&self) -> (r: String)
        ensures
            r@ == pool_path_of(self@),
    {
        let mut r = self.url();
        r.append("/pool/");
        r
    }

    /// Copies the entry.
    pub fn duplicate(&self) -> (r: SourceEntry)
        ensures
            r@ == self@,
    {
        let r = SourceEntry {
            enabled: self.enabled,
            source: self.source,
            options: clone_opts(&self.options),
            url: String::from_str(self.url.as_str()),
            suite: String::from_str(self.suite.as_str()),
            components: clone_vec_str(&self.components),
            archs: match &self.archs {
                Some(a) => Some(clone_vec_str(a)),
                None => None,
            },
            signed_by: match &self.signed_by {
                Some(sig) => Some(sig.duplicate()),
                None => None,
            },
            trusted: self.trusted,
            is_deb822: self.is_deb822,
        };
        proof {
            assert(r@ =~= self@);
        }
        r
    }
}

/// Elementwise equality of two option lists.
pub fn opts_eq(a: &Vec<(String, Vec<String>)>, b: &Vec<(String, Vec<String>)>) -> (r: bool)
    ensures
        r == (a.deep_view() == b.deep_view()),
{
    if a.len() != b.len() {
        proof {
            assert(a.deep_view().len() != b.deep_view().len());
        }
        return false;
    }
    let mut i: usize = 0;
    while i < a.len()
        invariant
            i <= a@.len(),
            a@.len() == b@.len(),
            forall|k: int| 0 <= k < i ==> a.deep_view()[k] == b.deep_view()[k],
        decreases a@.len() - i,
    {
        let keys_eq = text::str_eq(a[i].0.as_str(), b[i].0.as_str());
        let vals_eq = text::vec_str_eq(&a[i].1, &b[i].1);
        if !keys_eq || !vals_eq {
            proof {
                assert(a.deep_view()[i as int] != b.deep_view()[i as int]);
            }
            return false;
        }
        proof {
            assert(a.deep_view()[i as int] == b.deep_view()[i as int]);
        }
        i = i + 1;
    }
    proof {
        assert(a.deep_view() =~~= b.deep_view());
    }
    true
}

impl PartialEq for SourceEntry {
    fn eq(&self, other: &Self) -> (r: bool) {
        let sig_eq = match (&self.signed_by, &other.signed_by) {
            (Some(a), Some(b)) => *a == *b,
            (None, None) => true,
            _ => false,
        };
        let archs_eq = match (&self.archs, &other.archs) {
            (Some(a), Some(b)) => text::vec_str_eq(a, b),
            (None, None) => true,
            _ => false,
        };
        let r = self.enabled == other.enabled && self.source == other.source && text::str_eq(
            self.url.as_str(),
            other.url.as_str(),
        ) && text::str_eq(self.suite.as_str(), other.suite.as_str()) && text::vec_str_eq(
            &self.components,
            &other.components,
        ) && opts_eq(&self.options, &other.options) && sig_eq && archs_eq && self.trusted
            == other.trusted && self.is_deb822 == other.is_deb822;
        proof {
            if r {
                assert(self@ =~= other@);
            } else {
                assert(self@ != other@);
            }
        }
        r
    }
}

impl vstd::std_specs::cmp::PartialEqSpecImpl for SourceEntry {
    open spec fn obeys_eq_spec() -> bool {
        true
    }

    open spec fn eq_spec(&self, other: &Self) -> bool {
        self@ == other@
    }
}

} // verus!
