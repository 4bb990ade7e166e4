//! The general guarantees of the two codecs, stated and proved once over the
//! specification functions: the grouping behaviour of the deb822 serializer
//! and the round trip of the one-line codec.

use vstd::prelude::*;
use crate::text;
use crate::source_entry::EntryView;
use crate::source_entry::OptPairView;
use crate::source_deb822::concat_all;
use crate::source_deb822::deb822_render_of;
use crate::source_deb822::entry_key;
use crate::source_deb822::expand_all;
use crate::source_deb822::expand_types;
use crate::source_deb822::expand_uris;
use crate::source_deb822::keys_of;
use crate::source_deb822::lemma_keys_of_contains;
use crate::source_deb822::lemma_keys_of_push;
use crate::source_deb822::para_render_of;
use crate::source_deb822::rep_of;
use crate::source_deb822::suites_of;

verus! {

/// Expanding one paragraph yields exactly one entry per (suite, uri, type)
/// triple.
pub proof fn lemma_expand_count(
    suites: Seq<Seq<char>>,
    uris: Seq<Seq<char>>,
    types: Seq<bool>,
    proto: EntryView,
)
    ensures
        expand_all(suites, uris, types, proto).len() == suites.len() * uris.len() * types.len(),
    decreases suites.len(),
{
    if suites.len() == 0 {
        assert(0 * uris.len() * types.len() == 0) by (nonlinear_arith);
    } else {
        lemma_expand_count(suites.skip(1), uris, types, proto);
        lemma_expand_uris_count(uris, types, proto, suites[0]);
        assert(suites.skip(1).len() == suites.len() - 1);
        assert(uris.len() * types.len() + (suites.len() - 1) * uris.len() * types.len()
            == suites.len() * uris.len() * types.len()) by (nonlinear_arith);
    }
}

proof fn lemma_expand_uris_count(
    uris: Seq<Seq<char>>,
    types: Seq<bool>,
    proto: EntryView,
    suite: Seq<char>,
)
    ensures
        expand_uris(uris, types, proto, suite).len() == uris.len() * types.len(),
    decreases uris.len(),
{
    if uris.len() == 0 {
        assert(0 * types.len() == 0) by (nonlinear_arith);
    } else {
        lemma_expand_uris_count(uris.skip(1), types, proto, suite);
        assert(expand_types(types, proto, uris[0], suite).len() == types.len());
        assert(types.len() + (uris.len() - 1) * types.len() == uris.len() * types.len())
            by (nonlinear_arith);
    }
}

/// Blocks of entries, laid end to end.
pub open spec fn blocks_flat(blocks: Seq<Seq<EntryView>>) -> Seq<EntryView>
    decreases blocks.len(),
{
    if blocks.len() == 0 {
        Seq::empty()
    } else {
        blocks[0] + blocks_flat(blocks.skip(1))
    }
}

/// Each block is non-empty and of one group key; the keys are pairwise
/// distinct across blocks.
pub open spec fn distinct_key_blocks(blocks: Seq<Seq<EntryView>>) -> bool {
    &&& forall|g: int| 0 <= g < blocks.len() ==> (#[trigger] blocks[g]).len() > 0
    &&& forall|g: int, j: int|
        0 <= g < blocks.len() && 0 <= j < blocks[g].len() ==> entry_key(#[trigger] blocks[g][j])
            == entry_key(blocks[g][0])
    &&& forall|g1: int, g2: int|
        0 <= g1 < g2 < blocks.len() ==> entry_key(blocks[g1][0]) != entry_key(blocks[g2][0])
}

proof fn lemma_blocks_flat_push(blocks: Seq<Seq<EntryView>>, b: Seq<EntryView>)
    ensures
        blocks_flat(blocks.push(b)) == blocks_flat(blocks) + b,
    decreases blocks.len(),
{
    if blocks.len() == 0 {
        assert(blocks.push(b)[0] == b);
        assert(blocks.push(b).skip(1) =~~= Seq::<Seq<EntryView>>::empty());
        assert(blocks_flat(Seq::<Seq<EntryView>>::empty()) == Seq::<EntryView>::empty());
        assert(blocks_flat(blocks.push(b)) =~= b);
        assert(blocks_flat(blocks) + b =~= b);
    } else {
        lemma_blocks_flat_push(blocks.skip(1), b);
        assert(blocks.push(b).skip(1) =~~= blocks.skip(1).push(b));
        assert(blocks.push(b)[0] == blocks[0]);
        assert(blocks_flat(blocks.push(b)) == blocks[0] + blocks_flat(blocks.skip(1).push(b)));
        assert(blocks_flat(blocks.push(b)) =~= blocks_flat(blocks) + b);
    }
}

proof fn lemma_suites_of_push(
    es: Seq<EntryView>,
    e: EntryView,
    k: (Seq<char>, bool, Seq<OptPairView>),
)
    ensures
        suites_of(es.push(e), k) == if entry_key(e) == k {
            suites_of(es, k).push(e.suite)
        } else {
            suites_of(es, k)
        },
    decreases es.len(),
{
    if es.len() == 0 {
        assert(es.push(e)[0] == e);
        assert(es.push(e).skip(1) =~~= Seq::<EntryView>::empty());
        assert(suites_of(Seq::<EntryView>::empty(), k) == Seq::<Seq<char>>::empty());
        if entry_key(e) == k {
            assert(suites_of(es.push(e), k) == seq![e.suite] + suites_of(
                Seq::<EntryView>::empty(),
                k,
            ));
            assert(suites_of(es.push(e), k) =~= suites_of(es, k).push(e.suite));
        }
    } else {
        lemma_suites_of_push(es.skip(1), e, k);
        assert(es.push(e)[0] == es[0]);
        assert(es.push(e).skip(1) =~~= es.skip(1).push(e));
        if entry_key(es[0]) == k {
            if entry_key(e) == k {
                assert(suites_of(es.push(e), k) =~= suites_of(es, k).push(e.suite));
            }
        }
    }
}

proof fn lemma_rep_of_push(es: Seq<EntryView>, e: EntryView, k: (Seq<char>, bool, Seq<OptPairView>))
    ensures
        (exists|j: int| 0 <= j < es.len() && entry_key(#[trigger] es[j]) == k) ==> rep_of(
            es.push(e),
            k,
        ) == rep_of(es, k),
        (forall|j: int| 0 <= j < es.len() ==> entry_key(#[trigger] es[j]) != k) && entry_key(e)
            == k ==> rep_of(es.push(e), k) == e,
    decreases es.len(),
{
    if es.len() == 0 {
        assert(es.push(e)[0] == e);
    } else {
        lemma_rep_of_push(es.skip(1), e, k);
        assert(es.push(e)[0] == es[0]);
        assert(es.push(e).skip(1) =~~= es.skip(1).push(e));
        assert(forall|j: int| 0 <= j < es.len() - 1 ==> es.skip(1)[j] == (#[trigger] es[j + 1]));
        if entry_key(es[0]) == k {
        } else {
            if exists|j: int| 0 <= j < es.len() && entry_key(#[trigger] es[j]) == k {
                let j = choose|j: int| 0 <= j < es.len() && entry_key(#[trigger] es[j]) == k;
                assert(j > 0);
                assert(entry_key(es.skip(1)[j - 1]) == k);
            }
        }
    }
}

proof fn lemma_suites_of_none(es: Seq<EntryView>, k: (Seq<char>, bool, Seq<OptPairView>))
    requires
        forall|j: int| 0 <= j < es.len() ==> entry_key(#[trigger] es[j]) != k,
    ensures
        suites_of(es, k) == Seq::<Seq<char>>::empty(),
    decreases es.len(),
{
    if es.len() > 0 {
        assert(forall|j: int| 0 <= j < es.len() - 1 ==> es.skip(1)[j] == (#[trigger] es[j + 1]));
        lemma_suites_of_none(es.skip(1), k);
    }
}

/// Every entry of the flattened blocks carries the key of its block.
proof fn lemma_flat_keys(blocks: Seq<Seq<EntryView>>, j: int)
    requires
        distinct_key_blocks(blocks),
        0 <= j < blocks_flat(blocks).len(),
    ensures
        exists|g: int|
            0 <= g < blocks.len() && entry_key(blocks_flat(blocks)[j]) == entry_key(
                #[trigger] blocks[g][0],
            ),
    decreases blocks.len(),
{
    if blocks.len() > 0 {
        let b0 = blocks[0];
        if j < b0.len() {
            assert(blocks_flat(blocks)[j] == b0[j]);
            assert(entry_key(blocks_flat(blocks)[j]) == entry_key(blocks[0][0]));
        } else {
            let rest = blocks.skip(1);
            assert(distinct_key_blocks(rest)) by {
                assert(forall|g: int|
                    0 <= g < rest.len() ==> rest[g] == (#[trigger] blocks[g + 1]));
            }
            assert(blocks_flat(blocks)[j] == blocks_flat(rest)[j - b0.len()]);
            lemma_flat_keys(rest, j - b0.len());
            let g = choose|g: int|
                0 <= g < rest.len() && entry_key(blocks_flat(rest)[j - b0.len()]) == entry_key(
                    #[trigger] rest[g][0],
                );
            assert(rest[g] == blocks[g + 1]);
            assert(entry_key(blocks_flat(blocks)[j]) == entry_key(blocks[g + 1][0]));
        }
    }
}

/// Appending one block whose key is fresh: the key list grows by that key,
/// the new key's suites are the block's, and everything else is untouched.
proof fn lemma_append_block(
    es0: Seq<EntryView>,
    b: Seq<EntryView>,
    k: (Seq<char>, bool, Seq<OptPairView>),
)
    requires
        b.len() > 0,
        forall|j: int| 0 <= j < b.len() ==> entry_key(#[trigger] b[j]) == k,
        forall|j: int| 0 <= j < es0.len() ==> entry_key(#[trigger] es0[j]) != k,
    ensures
        keys_of(es0 + b) == keys_of(es0).push(k),
        suites_of(es0 + b, k) == b.map_values(|e: EntryView| e.suite),
        rep_of(es0 + b, k) == b[0],
        forall|k2: (Seq<char>, bool, Seq<OptPairView>)|
            k2 != k ==> suites_of(es0 + b, k2) == suites_of(es0, k2),
        forall|k2: (Seq<char>, bool, Seq<OptPairView>)|
            k2 != k && (exists|j: int| 0 <= j < es0.len() && entry_key(#[trigger] es0[j]) == k2)
                ==> rep_of(es0 + b, k2) == rep_of(es0, k2),
    decreases b.len(),
{
    if b.len() == 1 {
        assert(es0 + b =~~= es0.push(b[0]));
        assert(entry_key(b[0]) == k);
        lemma_keys_of_contains(es0, k);
        assert(!keys_of(es0).contains(k));
        lemma_keys_of_push(es0, b[0]);
        lemma_suites_of_none(es0, k);
        lemma_suites_of_push(es0, b[0], k);
        assert(suites_of(es0 + b, k) =~~= b.map_values(|e: EntryView| e.suite));
        lemma_rep_of_push(es0, b[0], k);
        assert forall|k2: (Seq<char>, bool, Seq<OptPairView>)| k2 != k implies suites_of(
            es0 + b,
            k2,
        ) == suites_of(es0, k2) by {
            lemma_suites_of_push(es0, b[0], k2);
        }
        assert forall|k2: (Seq<char>, bool, Seq<OptPairView>)|
            k2 != k && (exists|j: int|
                0 <= j < es0.len() && entry_key(#[trigger] es0[j]) == k2) implies rep_of(
            es0 + b,
            k2,
        ) == rep_of(es0, k2) by {
            lemma_rep_of_push(es0, b[0], k2);
        }
    } else {
        let bd = b.drop_last();
        let last = b.last();
        assert(forall|j: int| 0 <= j < bd.len() ==> bd[j] == (#[trigger] b[j]));
        lemma_append_block(es0, bd, k);
        let mid = es0 + bd;
        assert(es0 + b =~~= mid.push(last));
        assert(entry_key(last) == k);
        lemma_keys_of_push(mid, last);
        assert(keys_of(mid).contains(k)) by {
            assert(keys_of(mid) == keys_of(es0).push(k));
            assert(keys_of(mid)[keys_of(mid).len() - 1] == k);
        }
        assert(keys_of(es0 + b) == keys_of(es0).push(k));
        lemma_suites_of_push(mid, last, k);
        assert(suites_of(es0 + b, k) =~~= b.map_values(|e: EntryView| e.suite)) by {
            assert(suites_of(mid, k) == bd.map_values(|e: EntryView| e.suite));
        }
        lemma_rep_of_push(mid, last, k);
        assert(rep_of(es0 + b, k) == rep_of(mid, k)) by {
            assert(entry_key(mid[es0.len() as int]) == k);
        }
        assert forall|k2: (Seq<char>, bool, Seq<OptPairView>)| k2 != k implies suites_of(
            es0 + b,
            k2,
        ) == suites_of(es0, k2) by {
            lemma_suites_of_push(mid, last, k2);
        }
        assert forall|k2: (Seq<char>, bool, Seq<OptPairView>)|
            k2 != k && (exists|j: int|
                0 <= j < es0.len() && entry_key(#[trigger] es0[j]) == k2) implies rep_of(
            es0 + b,
            k2,
        ) == rep_of(es0, k2) by {
            lemma_rep_of_push(mid, last, k2);
            assert(exists|j: int| 0 <= j < mid.len() && entry_key(#[trigger] mid[j]) == k2) by {
                let j = choose|j: int| 0 <= j < es0.len() && entry_key(#[trigger] es0[j]) == k2;
                assert(entry_key(mid[j]) == k2);
            }
        }
    }
}

/// The regrouping law of the deb822 serializer: entries that form distinct
/// consecutive key groups serialize into exactly one paragraph per group, in
/// first-encounter order, each paragraph built from the group's first entry
/// and listing exactly the group's suites, in order.  In particular, a text
/// whose paragraphs have pairwise distinct keys and one URI and type each
/// parses into (number of groups) × (suites per group) entries and renders
/// back into as many paragraphs as there are groups.
pub proof fn lemma_deb822_grouping(blocks: Seq<Seq<EntryView>>)
    requires
        distinct_key_blocks(blocks),
    ensures
        keys_of(blocks_flat(blocks)).len() == blocks.len(),
        forall|g: int|
            0 <= g < blocks.len() ==> keys_of(blocks_flat(blocks))[g] == entry_key(
                (#[trigger] blocks[g])[0],
            ),
        forall|g: int|
            0 <= g < blocks.len() ==> suites_of(blocks_flat(blocks), entry_key(
                (#[trigger] blocks[g])[0],
            )) == blocks[g].map_values(|e: EntryView| e.suite),
        forall|g: int|
            0 <= g < blocks.len() ==> rep_of(blocks_flat(blocks), entry_key(
                (#[trigger] blocks[g])[0],
            )) == blocks[g][0],
        deb822_render_of(blocks_flat(blocks)) == concat_all(
            Seq::new(
                blocks.len() as nat,
                |g: int|
                    para_render_of(blocks[g][0], blocks[g].map_values(|e: EntryView| e.suite)),
            ),
        ),
    decreases blocks.len(),
{
    if blocks.len() == 0 {
        assert(keys_of(blocks_flat(blocks)) =~~= Seq::<(Seq<char>, bool, Seq<OptPairView>)>::empty());
        assert(keys_of(blocks_flat(blocks)).map_values(
            |k: (Seq<char>, bool, Seq<OptPairView>)|
                para_render_of(
                    rep_of(blocks_flat(blocks), k),
                    suites_of(blocks_flat(blocks), k),
                ),
        ) =~~= Seq::new(
            blocks.len() as nat,
            |g: int| para_render_of(blocks[g][0], blocks[g].map_values(|e: EntryView| e.suite)),
        ));
    } else {
        let bs = blocks.drop_last();
        let b = blocks.last();
        let k = entry_key(b[0]);
        assert(forall|g: int| 0 <= g < bs.len() ==> bs[g] == (#[trigger] blocks[g]));
        assert(distinct_key_blocks(bs));
        lemma_deb822_grouping(bs);
        let es0 = blocks_flat(bs);
        assert(blocks_flat(blocks) =~~= es0 + b) by {
            assert(bs.push(b) =~~= blocks);
            lemma_blocks_flat_push(bs, b);
        }
        let es = blocks_flat(blocks);
        assert(forall|j: int| 0 <= j < es0.len() ==> entry_key(#[trigger] es0[j]) != k) by {
            assert forall|j: int| 0 <= j < es0.len() implies entry_key(#[trigger] es0[j]) != k by {
                lemma_flat_keys(bs, j);
                let g = choose|g: int|
                    0 <= g < bs.len() && entry_key(es0[j]) == entry_key(#[trigger] bs[g][0]);
                assert(entry_key(blocks[g][0]) != entry_key(blocks[blocks.len() - 1][0]));
            }
        }
        lemma_append_block(es0, b, k);
        assert(keys_of(es) == keys_of(es0).push(k));
        assert forall|g: int| 0 <= g < blocks.len() implies keys_of(es)[g] == entry_key(
            (#[trigger] blocks[g])[0],
        ) by {
            if g < bs.len() {
                assert(keys_of(es)[g] == keys_of(es0)[g]);
            }
        }
        assert forall|g: int| 0 <= g < blocks.len() implies suites_of(es, entry_key(
            (#[trigger] blocks[g])[0],
        )) == blocks[g].map_values(|e: EntryView| e.suite) by {
            if g < bs.len() {
                assert(entry_key(blocks[g][0]) != k);
                assert(suites_of(es, entry_key(blocks[g][0])) == suites_of(
                    es0,
                    entry_key(blocks[g][0]),
                ));
            }
        }
        assert forall|g: int| 0 <= g < blocks.len() implies rep_of(es, entry_key(
            (#[trigger] blocks[g])[0],
        )) == blocks[g][0] by {
            if g < bs.len() {
                assert(entry_key(blocks[g][0]) != k);
                assert(exists|j: int|
                    0 <= j < es0.len() && entry_key(#[trigger] es0[j]) == entry_key(
                        blocks[g][0],
                    )) by {
                    assert(bs[g].len() > 0);
                    lemma_flat_contains(bs, g);
                }
                assert(rep_of(es, entry_key(blocks[g][0])) == rep_of(
                    es0,
                    entry_key(blocks[g][0]),
                ));
            }
        }
        assert(deb822_render_of(es) == concat_all(
            Seq::new(
                blocks.len() as nat,
                |g: int|
                    para_render_of(blocks[g][0], blocks[g].map_values(|e: EntryView| e.suite)),
            ),
        )) by {
            let mapped = keys_of(es).map_values(
                |k2: (Seq<char>, bool, Seq<OptPairView>)|
                    para_render_of(rep_of(es, k2), suites_of(es, k2)),
            );
            let target = Seq::new(
                blocks.len() as nat,
                |g: int|
                    para_render_of(blocks[g][0], blocks[g].map_values(|e: EntryView| e.suite)),
            );
            assert(mapped =~~= target);
        }
    }
}

/// The first entry of a block occurs in the flattened blocks.
proof fn lemma_flat_contains(blocks: Seq<Seq<EntryView>>, g: int)
    requires
        0 <= g < blocks.len(),
        forall|h: int| 0 <= h < blocks.len() ==> (#[trigger] blocks[h]).len() > 0,
    ensures
        exists|j: int|
            0 <= j < blocks_flat(blocks).len() && entry_key(#[trigger] blocks_flat(blocks)[j])
                == entry_key(blocks[g][0]),
    decreases g,
{
    if g == 0 {
        assert(blocks_flat(blocks)[0] == blocks[0][0]);
        assert(entry_key(blocks_flat(blocks)[0]) == entry_key(blocks[0][0]));
    } else {
        let rest = blocks.skip(1);
        assert(forall|h: int| 0 <= h < rest.len() ==> rest[h] == (#[trigger] blocks[h + 1]));
        lemma_flat_contains(rest, g - 1);
        let j = choose|j: int|
            0 <= j < blocks_flat(rest).len() && entry_key(#[trigger] blocks_flat(rest)[j])
                == entry_key(rest[g - 1][0]);
        assert(blocks_flat(blocks)[blocks[0].len() + j] == blocks_flat(rest)[j]);
        assert(entry_key(blocks_flat(blocks)[blocks[0].len() + j]) == entry_key(blocks[g][0]));
    }
}

/// No character of `s` is `c`.
pub open spec fn no_char(s: Seq<char>, c: char) -> bool {
    forall|i: int| 0 <= i < s.len() ==> s[i] != c
}

/// A word the tokenizer can give back: non-empty and free of whitespace.
pub open spec fn clean_token(t: Seq<char>) -> bool {
    t.len() > 0 && !text::has_space(t)
}

/// The first token of `s` ends at its first whitespace character.
proof fn lemma_tok_len_chars(s: Seq<char>)
    ensures
        text::tok_len(s) <= s.len(),
        forall|k: int| 0 <= k < text::tok_len(s) ==> !text::is_space(s[k]),
        text::tok_len(s) == s.len() || text::is_space(s[text::tok_len(s) as int]),
    decreases s.len(),
{
    if s.len() == 0 || text::is_space(s[0]) {
    } else {
        lemma_tok_len_chars(s.skip(1));
        assert(forall|k: int| 0 <= k < s.len() - 1 ==> s.skip(1)[k] == s[k + 1]);
        assert forall|k: int| 0 <= k < text::tok_len(s) implies !text::is_space(s[k]) by {
            if k > 0 {
                assert(!text::is_space(s.skip(1)[k - 1]));
            }
        }
        if text::tok_len(s) < s.len() {
            assert(text::is_space(s.skip(1)[text::tok_len(s.skip(1)) as int]));
        }
    }
}

/// Splitting at an inserted whitespace character splits the token lists.
proof fn lemma_tokens_split(x: Seq<char>, y: Seq<char>, c: char)
    requires
        text::is_space(c),
    ensures
        text::tokens_of(x + seq![c] + y) == text::tokens_of(x) + text::tokens_of(y),
    decreases x.len(),
{
    let w = x + seq![c] + y;
    if x.len() == 0 {
        assert(w[0] == c);
        assert(w.skip(1) =~= y);
        assert(text::tokens_of(x) =~~= Seq::<Seq<char>>::empty());
        assert(text::tokens_of(x) + text::tokens_of(y) =~~= text::tokens_of(y));
    } else if text::is_space(x[0]) {
        assert(w[0] == x[0]);
        assert(w.skip(1) =~= x.skip(1) + seq![c] + y);
        lemma_tokens_split(x.skip(1), y, c);
    } else {
        lemma_tok_len_chars(x);
        let n = text::tok_len(x) as int;
        assert(text::tok_len(w) == n) by {
            assert(forall|k: int| 0 <= k < n ==> w[k] == x[k]);
            if n == x.len() {
                assert(w[n] == c);
            } else {
                assert(w[n] == x[n]);
            }
            text::lemma_tok_len_at(w, n);
        }
        assert(w.take(n) =~= x.take(n));
        assert(w.skip(n) =~= x.skip(n) + seq![c] + y);
        lemma_tokens_split(x.skip(n), y, c);
        assert(text::tokens_of(w) == seq![x.take(n)] + (text::tokens_of(x.skip(n))
            + text::tokens_of(y)));
        assert(text::tokens_of(w) =~~= text::tokens_of(x) + text::tokens_of(y));
    }
}

/// A clean word is one token.
proof fn lemma_tokens_single(t: Seq<char>)
    requires
        clean_token(t),
    ensures
        text::tokens_of(t) == seq![t],
{
    assert(forall|k: int| 0 <= k < t.len() ==> !text::is_space(t[k]));
    text::lemma_tok_len_at(t, t.len() as int);
    assert(t.take(t.len() as int) =~= t);
    assert(t.skip(t.len() as int) =~= Seq::<char>::empty());
    assert(text::tokens_of(Seq::<char>::empty()) =~~= Seq::<Seq<char>>::empty());
    assert(text::tokens_of(t) =~~= seq![t]);
}

/// Tokenizing undoes a single-space join of clean words.
proof fn lemma_tokens_of_join(ts: Seq<Seq<char>>)
    requires
        forall|i: int| 0 <= i < ts.len() ==> clean_token(#[trigger] ts[i]),
    ensures
        text::tokens_of(text::join_with(ts, seq![' '])) == ts,
    decreases ts.len(),
{
    if ts.len() == 0 {
        assert(text::tokens_of(text::join_with(ts, seq![' '])) =~~= ts);
    } else if ts.len() == 1 {
        lemma_tokens_single(ts[0]);
        assert(text::tokens_of(text::join_with(ts, seq![' '])) =~~= ts);
    } else {
        let rest = ts.skip(1);
        assert(forall|i: int| 0 <= i < rest.len() ==> rest[i] == (#[trigger] ts[i + 1]));
        lemma_tokens_of_join(rest);
        assert(text::join_with(ts, seq![' ']) =~= ts[0] + seq![' '] + text::join_with(
            rest,
            seq![' '],
        ));
        lemma_tokens_split(ts[0], text::join_with(rest, seq![' ']), ' ');
        lemma_tokens_single(ts[0]);
        assert(text::tokens_of(text::join_with(ts, seq![' '])) =~~= ts);
    }
}

/// Joining distributes over concatenation of non-empty token lists.
proof fn lemma_join_concat(a: Seq<Seq<char>>, b: Seq<Seq<char>>)
    requires
        a.len() > 0,
        b.len() > 0,
    ensures
        text::join_with(a + b, seq![' ']) == text::join_with(a, seq![' ']) + seq![' ']
            + text::join_with(b, seq![' ']),
    decreases a.len(),
{
    if a.len() == 1 {
        assert((a + b)[0] == a[0]);
        assert((a + b).skip(1) =~~= b);
        assert(text::join_with(a + b, seq![' ']) == a[0] + seq![' '] + text::join_with(
            b,
            seq![' '],
        ));
        assert(text::join_with(a, seq![' ']) == a[0]);
    } else {
        lemma_join_concat(a.skip(1), b);
        assert((a + b)[0] == a[0]);
        assert((a + b).skip(1) =~~= a.skip(1) + b);
        assert(text::join_with(a + b, seq![' ']) == a[0] + seq![' '] + text::join_with(
            a.skip(1) + b,
            seq![' '],
        ));
        assert(text::join_with(a + b, seq![' ']) =~= text::join_with(a, seq![' ']) + seq![' ']
            + text::join_with(b, seq![' ']));
    }
}

/// A join of `c`-free pieces on a separator other than `c` stays `c`-free.
proof fn lemma_join_no_char(ts: Seq<Seq<char>>, sep: char, c: char)
    requires
        sep != c,
        forall|i: int| 0 <= i < ts.len() ==> no_char(#[trigger] ts[i], c),
    ensures
        no_char(text::join_with(ts, seq![sep]), c),
    decreases ts.len(),
{
    if ts.len() == 0 {
    } else if ts.len() == 1 {
    } else {
        let rest = ts.skip(1);
        assert(forall|i: int| 0 <= i < rest.len() ==> rest[i] == (#[trigger] ts[i + 1]));
        lemma_join_no_char(rest, sep, c);
        let j = text::join_with(ts, seq![sep]);
        assert(j == ts[0] + seq![sep] + text::join_with(rest, seq![sep]));
        assert forall|i: int| 0 <= i < j.len() implies j[i] != c by {
            if i < ts[0].len() {
                assert(j[i] == ts[0][i]);
            } else if i == ts[0].len() {
                assert(j[i] == sep);
            } else {
                assert(j[i] == text::join_with(rest, seq![sep])[i - ts[0].len() - 1]);
            }
        }
    }
}

/// Splitting undoes a join on the separator when the pieces are free of it.
proof fn lemma_split_join(ps: Seq<Seq<char>>, c: char)
    requires
        ps.len() > 0,
        forall|i: int| 0 <= i < ps.len() ==> no_char(#[trigger] ps[i], c),
    ensures
        text::split_char_of(text::join_with(ps, seq![c]), c) == ps,
    decreases ps.len(),
{
    if ps.len() == 1 {
        let j = text::join_with(ps, seq![c]);
        assert(j == ps[0]);
        text::lemma_find_char_at(j, c, j.len() as int);
        assert(text::split_char_of(j, c) =~~= ps);
    } else {
        let rest = ps.skip(1);
        assert(forall|i: int| 0 <= i < rest.len() ==> rest[i] == (#[trigger] ps[i + 1]));
        lemma_split_join(rest, c);
        let j = text::join_with(ps, seq![c]);
        assert(j == ps[0] + seq![c] + text::join_with(rest, seq![c]));
        assert(forall|k: int| 0 <= k < ps[0].len() ==> j[k] == (#[trigger] ps[0][k]));
        assert(j[ps[0].len() as int] == c);
        text::lemma_find_char_at(j, c, ps[0].len() as int);
        assert(j.take(ps[0].len() as int) =~= ps[0]);
        assert(j.skip(ps[0].len() as int + 1) =~= text::join_with(rest, seq![c]));
        assert(text::split_char_of(j, c) =~~= ps);
    }
}

/// What an option pair must look like to have come out of the one-line
/// parser: whitespace-free pieces, the key free of `=` and `]`, the values
/// free of `,` and `]`, at least one value.
pub open spec fn opt_pair_wf(p: OptPairView) -> bool {
    &&& !text::has_space(p.0)
    &&& no_char(p.0, '=')
    &&& no_char(p.0, ']')
    &&& p.1.len() > 0
    &&& forall|j: int|
        0 <= j < p.1.len() ==> (!text::has_space(#[trigger] p.1[j]) && no_char(p.1[j], ',')
            && no_char(p.1[j], ']'))
}

/// What a one-line entry must look like to have come out of the parser:
/// clean URL, suite and components, well-formed option pairs, the one-line
/// tag, and — when there are no options — a URL that does not open like an
/// option block.
pub open spec fn line_entry_wf(e: EntryView) -> bool {
    &&& clean_token(e.url)
    &&& clean_token(e.suite)
    &&& forall|i: int| 0 <= i < e.components.len() ==> clean_token(#[trigger] e.components[i])
    &&& forall|i: int| 0 <= i < e.options.len() ==> opt_pair_wf(#[trigger] e.options[i])
    &&& !e.is_deb822
    &&& (e.options.len() == 0 ==> e.url[0] != '[')
}

/// A join of whitespace-free pieces on a non-whitespace separator is
/// whitespace-free.
proof fn lemma_join_no_space(ts: Seq<Seq<char>>, sep: char)
    requires
        !text::is_space(sep),
        forall|i: int| 0 <= i < ts.len() ==> !text::has_space(#[trigger] ts[i]),
    ensures
        !text::has_space(text::join_with(ts, seq![sep])),
    decreases ts.len(),
{
    if ts.len() == 0 {
    } else if ts.len() == 1 {
    } else {
        let rest = ts.skip(1);
        assert(forall|i: int| 0 <= i < rest.len() ==> rest[i] == (#[trigger] ts[i + 1]));
        lemma_join_no_space(rest, sep);
        let j = text::join_with(ts, seq![sep]);
        assert(j == ts[0] + seq![sep] + text::join_with(rest, seq![sep]));
        assert forall|i: int| 0 <= i < j.len() implies !text::is_space(j[i]) by {
            if i < ts[0].len() {
                assert(j[i] == ts[0][i]);
            } else if i == ts[0].len() {
                assert(j[i] == sep);
            } else {
                assert(j[i] == text::join_with(rest, seq![sep])[i - ts[0].len() - 1]);
            }
        }
    }
}

/// The one-line text of a well-formed option pair is one clean word, free of
/// `]`, with its first `=` right after the key.
proof fn lemma_opt_token_wf(p: OptPairView)
    requires
        opt_pair_wf(p),
    ensures
        clean_token(crate::source_entry::opt_token_of(p)),
        no_char(crate::source_entry::opt_token_of(p), ']'),
        text::find_char_of(crate::source_entry::opt_token_of(p), '=') == Some(p.0.len() as int),
        crate::source_entry::opt_token_of(p).take(p.0.len() as int) == p.0,
        crate::source_entry::opt_token_of(p).skip(p.0.len() as int + 1) == text::join_with(
            p.1,
            seq![','],
        ),
{
    let t = crate::source_entry::opt_token_of(p);
    let v = text::join_with(p.1, seq![',']);
    assert(t == p.0 + seq!['='] + v);
    lemma_join_no_space(p.1, ',');
    lemma_join_no_char(p.1, ',', ']');
    assert forall|i: int| 0 <= i < t.len() implies !text::is_space(t[i]) && t[i] != ']' by {
        if i < p.0.len() {
            assert(t[i] == p.0[i]);
        } else if i == p.0.len() {
            assert(t[i] == '=');
        } else {
            assert(t[i] == v[i - p.0.len() - 1]);
        }
    }
    assert(forall|k: int| 0 <= k < p.0.len() ==> t[k] == (#[trigger] p.0[k]));
    assert(t[p.0.len() as int] == '=');
    text::lemma_find_char_at(t, '=', p.0.len() as int);
    assert(t.take(p.0.len() as int) =~= p.0);
    assert(t.skip(p.0.len() as int + 1) =~= v);
}

/// The option tokens of a well-formed entry, with the brackets glued on.
pub open spec fn btoks_of(ots: Seq<Seq<char>>) -> Seq<Seq<char>> {
    let h = ots.update(0, seq!['['] + ots[0]);
    h.update(h.len() - 1, h.last() + seq![']'])
}

proof fn lemma_join_head(ts: Seq<Seq<char>>, x: Seq<char>)
    requires
        ts.len() > 0,
    ensures
        text::join_with(ts.update(0, x + ts[0]), seq![' ']) == x + text::join_with(
            ts,
            seq![' '],
        ),
{
    let u = ts.update(0, x + ts[0]);
    if ts.len() == 1 {
        assert(text::join_with(u, seq![' ']) == u[0]);
        assert(text::join_with(ts, seq![' ']) == ts[0]);
    } else {
        assert(u.skip(1) =~~= ts.skip(1));
        assert(text::join_with(u, seq![' ']) == u[0] + seq![' '] + text::join_with(
            u.skip(1),
            seq![' '],
        ));
        assert(text::join_with(u, seq![' ']) =~= x + text::join_with(ts, seq![' ']));
    }
}

proof fn lemma_join_tail(ts: Seq<Seq<char>>, x: Seq<char>)
    requires
        ts.len() > 0,
    ensures
        text::join_with(ts.update(ts.len() - 1, ts.last() + x), seq![' ']) == text::join_with(
            ts,
            seq![' '],
        ) + x,
    decreases ts.len(),
{
    let u = ts.update(ts.len() - 1, ts.last() + x);
    if ts.len() == 1 {
        assert(text::join_with(u, seq![' ']) == u[0]);
        assert(text::join_with(ts, seq![' ']) == ts[0]);
    } else {
        lemma_join_tail(ts.skip(1), x);
        assert(u.skip(1) =~~= ts.skip(1).update(ts.skip(1).len() - 1, ts.skip(1).last() + x));
        assert(u[0] == ts[0]);
        assert(text::join_with(u, seq![' ']) == u[0] + seq![' '] + text::join_with(
            u.skip(1),
            seq![' '],
        ));
        assert(text::join_with(u, seq![' ']) =~= text::join_with(ts, seq![' ']) + x);
    }
}

/// Wrapping a join of clean option words in brackets gives exactly the
/// bracket-glued token list, and the join of that token list is the wrapped
/// string.
proof fn lemma_bracket_tokens(ots: Seq<Seq<char>>)
    requires
        ots.len() > 0,
        forall|i: int| 0 <= i < ots.len() ==> clean_token(#[trigger] ots[i]),
    ensures
        text::join_with(btoks_of(ots), seq![' ']) == seq!['['] + text::join_with(ots, seq![' '])
            + seq![']'],
        text::tokens_of(seq!['['] + text::join_with(ots, seq![' ']) + seq![']']) == btoks_of(
            ots,
        ),
        btoks_of(ots).len() == ots.len(),
        forall|i: int| 0 <= i < btoks_of(ots).len() ==> clean_token(#[trigger] btoks_of(ots)[i]),
        btoks_of(ots)[0].len() > 0 && btoks_of(ots)[0][0] == '[',
{
    let h = ots.update(0, seq!['['] + ots[0]);
    let bt = btoks_of(ots);
    lemma_join_head(ots, seq!['[']);
    assert(h.last() == h[h.len() - 1]);
    lemma_join_tail(h, seq![']']);
    assert(text::join_with(bt, seq![' ']) == seq!['['] + text::join_with(ots, seq![' '])
        + seq![']']);
    assert forall|i: int| 0 <= i < bt.len() implies clean_token(#[trigger] bt[i]) by {
        let base = if i == 0 {
            seq!['['] + ots[0]
        } else {
            ots[i]
        };
        assert(bt[i] == base || bt[i] == base + seq![']']);
        assert(clean_token(base)) by {
            if i == 0 {
                assert(forall|k: int|
                    0 <= k < ots[0].len() ==> (seq!['['] + ots[0])[k + 1] == (
                    #[trigger] ots[0][k]));
                assert((seq!['['] + ots[0])[0] == '[');
                assert(forall|k: int|
                    0 <= k < base.len() ==> base[k] == '[' || (0 <= k - 1 < ots[0].len()
                        && base[k] == ots[0][k - 1]));
            }
        }
        if bt[i] == base + seq![']'] {
            assert(forall|k: int|
                0 <= k < base.len() ==> (base + seq![']'])[k] == (#[trigger] base[k]));
            assert((base + seq![']'])[base.len() as int] == ']');
        }
    }
    lemma_tokens_of_join(bt);
    assert(bt[0][0] == '[') by {
        if ots.len() == 1 {
            assert(bt[0] == (seq!['['] + ots[0]) + seq![']']);
            assert(bt[0][0] == (seq!['['] + ots[0])[0]);
        } else {
            assert(bt[0] == seq!['['] + ots[0]);
        }
    }
}

/// The keyword of an entry's kind.
pub open spec fn kindword(e: EntryView) -> Seq<char> {
    if e.source {
        "deb-src"@
    } else {
        "deb"@
    }
}

/// The rendered line without the `# ` prefix of a disabled entry.
pub open spec fn core_render(e: EntryView) -> Seq<char> {
    (if e.source {
        "deb-src "@
    } else {
        "deb "@
    }) + (if e.options.len() > 0 {
        seq!['['] + text::join_with(
            e.options.map_values(|p: OptPairView| crate::source_entry::opt_token_of(p)),
            seq![' '],
        ) + seq![']', ' ']
    } else {
        Seq::<char>::empty()
    }) + e.url + seq![' '] + e.suite + seq![' '] + text::join_with(e.components, seq![' '])
}

/// The whitespace-separated words of a rendered entry, in order: the kind
/// keyword, the bracketed options when there are any, the URL, the suite and
/// the components.
pub open spec fn line_tokens_of(e: EntryView) -> Seq<Seq<char>> {
    seq![kindword(e)] + (if e.options.len() > 0 {
        btoks_of(e.options.map_values(|p: OptPairView| crate::source_entry::opt_token_of(p)))
    } else {
        Seq::<Seq<char>>::empty()
    }) + seq![e.url, e.suite] + e.components
}

proof fn lemma_kindword_clean(e: EntryView)
    ensures
        clean_token(kindword(e)),
        (if e.source {
            "deb-src "@
        } else {
            "deb "@
        }) == kindword(e) + seq![' '],
{
    reveal_strlit("deb");
    reveal_strlit("deb-src");
    reveal_strlit("deb ");
    reveal_strlit("deb-src ");
    if e.source {
        assert forall|k: int| 0 <= k < "deb-src"@.len() implies !text::is_space(
            "deb-src"@[k],
        ) by {
            if k == 0 || k == 1 || k == 2 || k == 3 || k == 4 || k == 5 || k == 6 {
            }
        }
        assert("deb-src "@ =~= "deb-src"@ + seq![' ']);
    } else {
        assert forall|k: int| 0 <= k < "deb"@.len() implies !text::is_space("deb"@[k]) by {
            if k == 0 || k == 1 || k == 2 {
            }
        }
        assert("deb "@ =~= "deb"@ + seq![' ']);
    }
}

/// Tokenizing the rendered core gives exactly the entry's words.
proof fn lemma_core_tokens(e: EntryView)
    requires
        line_entry_wf(e),
    ensures
        text::tokens_of(core_render(e)) == line_tokens_of(e),
{
    lemma_kindword_clean(e);
    let kw = kindword(e);
    let tail2 = seq![e.url, e.suite] + e.components;
    let tailstr = e.url + seq![' '] + (e.suite + seq![' '] + text::join_with(
        e.components,
        seq![' '],
    ));
    assert(text::tokens_of(tailstr) == tail2) by {
        lemma_tokens_split(
            e.url,
            e.suite + seq![' '] + text::join_with(e.components, seq![' ']),
            ' ',
        );
        lemma_tokens_split(e.suite, text::join_with(e.components, seq![' ']), ' ');
        lemma_tokens_single(e.url);
        lemma_tokens_single(e.suite);
        lemma_tokens_of_join(e.components);
        assert(text::tokens_of(tailstr) =~~= tail2);
    }
    if e.options.len() == 0 {
        assert(core_render(e) =~= kw + seq![' '] + tailstr);
        lemma_tokens_split(kw, tailstr, ' ');
        lemma_tokens_single(kw);
        assert(text::tokens_of(core_render(e)) =~~= line_tokens_of(e));
    } else {
        let otl = e.options.map_values(|p: OptPairView| crate::source_entry::opt_token_of(p));
        assert forall|i: int| 0 <= i < otl.len() implies clean_token(#[trigger] otl[i]) by {
            lemma_opt_token_wf(e.options[i]);
        }
        lemma_bracket_tokens(otl);
        let bstr = seq!['['] + text::join_with(otl, seq![' ']) + seq![']'];
        assert(core_render(e) =~= kw + seq![' '] + (bstr + seq![' '] + tailstr));
        lemma_tokens_split(kw, bstr + seq![' '] + tailstr, ' ');
        lemma_tokens_split(bstr, tailstr, ' ');
        lemma_tokens_single(kw);
        assert(text::tokens_of(core_render(e)) =~~= line_tokens_of(e));
    }
}

/// The last characters counted by `trailing_spaces` are whitespace.
proof fn lemma_trailing_chars(s: Seq<char>)
    ensures
        text::trailing_spaces(s) <= s.len(),
        forall|k: int| s.len() - text::trailing_spaces(s) <= k < s.len() ==> text::is_space(s[k]),
        text::trailing_spaces(s) == s.len() || !text::is_space(
            s[s.len() - text::trailing_spaces(s) - 1],
        ),
    decreases s.len(),
{
    if s.len() > 0 && text::is_space(s.last()) {
        lemma_trailing_chars(s.drop_last());
        assert(forall|k: int| 0 <= k < s.len() - 1 ==> s.drop_last()[k] == s[k]);
    }
}

/// Whitespace at the end does not change the words.
proof fn lemma_tokens_take_trailing(s: Seq<char>, t: int)
    requires
        0 <= t <= s.len(),
        forall|k: int| s.len() - t <= k < s.len() ==> text::is_space(s[k]),
    ensures
        text::tokens_of(s.take(s.len() - t)) == text::tokens_of(s),
    decreases t,
{
    if t > 0 {
        lemma_tokens_take_trailing(s, t - 1);
        let longer = s.take(s.len() - t + 1);
        let shorter = s.take(s.len() - t);
        assert(longer =~= shorter + seq![s[s.len() - t]] + Seq::<char>::empty());
        lemma_tokens_split(shorter, Seq::<char>::empty(), s[s.len() - t]);
        assert(text::tokens_of(Seq::<char>::empty()) =~~= Seq::<Seq<char>>::empty());
        assert(text::tokens_of(longer) =~~= text::tokens_of(shorter));
    } else {
        assert(s.take(s.len() - 0) =~= s);
    }
}

/// Parsing the words of a rendered well-formed entry succeeds and recovers
/// the kind, URL, suite and components.
proof fn lemma_parse_line_tokens(e: EntryView)
    requires
        line_entry_wf(e),
    ensures
        ({
            let r = crate::source_entry::entry_parse_tokens(line_tokens_of(e));
            &&& r matches Ok(_)
            &&& (r->Ok_0).enabled == true
            &&& (r->Ok_0).source == e.source
            &&& (r->Ok_0).url == e.url
            &&& (r->Ok_0).suite == e.suite
            &&& (r->Ok_0).components == e.components
            &&& !(r->Ok_0).is_deb822
        }),
{
    if e.options.len() == 0 {
        lemma_parse_line_tokens_plain(e);
    } else {
        lemma_parse_line_tokens_bracketed(e);
    }
}

/// The option-free shape of `lemma_parse_line_tokens`.
#[verifier::spinoff_prover]
proof fn lemma_parse_line_tokens_plain(e: EntryView)
    requires
        line_entry_wf(e),
        e.options.len() == 0,
    ensures
        ({
            let r = crate::source_entry::entry_parse_tokens(line_tokens_of(e));
            &&& r matches Ok(_)
            &&& (r->Ok_0).enabled == true
            &&& (r->Ok_0).source == e.source
            &&& (r->Ok_0).url == e.url
            &&& (r->Ok_0).suite == e.suite
            &&& (r->Ok_0).components == e.components
            &&& !(r->Ok_0).is_deb822
        }),
{
    reveal_strlit("deb");
    reveal_strlit("deb-src");
    let toks = line_tokens_of(e);
    assert(toks[0] == kindword(e));
    assert("deb"@.len() == 3 && "deb-src"@.len() == 7);
    assert(toks[0] == "deb"@ || toks[0] == "deb-src"@);
    let src = toks[0] == "deb-src"@;
    assert(src == e.source);
    let rest = toks.skip(1);
    {
        assert(rest =~~= seq![e.url, e.suite] + e.components);
        assert(rest[0] == e.url);
        assert(!(e.url.len() > 0 && e.url[0] == '['));
        assert(rest.skip(1) =~~= seq![e.suite] + e.components);
        let tail = rest.skip(1);
        assert(tail[0] == e.suite);
        assert(tail.skip(1) =~~= e.components);
        lemma_assemble_fields(src, Seq::empty(), e.url, tail);
    }
}

/// Assembling always succeeds on a non-empty tail, and the kind, URL, suite
/// and components of the result are exactly the pieces given.
proof fn lemma_assemble_fields(
    src: bool,
    pairs: Seq<OptPairView>,
    url: Seq<char>,
    tail: Seq<Seq<char>>,
)
    requires
        tail.len() > 0,
    ensures
        ({
            let r = crate::source_entry::entry_assemble(src, pairs, url, tail);
            &&& r matches Ok(_)
            &&& (r->Ok_0).enabled == true
            &&& (r->Ok_0).source == src
            &&& (r->Ok_0).url == url
            &&& (r->Ok_0).suite == tail[0]
            &&& (r->Ok_0).components == tail.skip(1)
            &&& !(r->Ok_0).is_deb822
        }),
{
}

/// The words of a well-formed entry's options are clean and free of `]`,
/// and splitting their join back into pairs recovers the options.
#[verifier::spinoff_prover]
proof fn lemma_opt_tokens_facts(e: EntryView)
    requires
        line_entry_wf(e),
        e.options.len() > 0,
    ensures
        ({
            let otl = e.options.map_values(
                |p: OptPairView| crate::source_entry::opt_token_of(p),
            );
            &&& forall|i: int|
                0 <= i < otl.len() ==> clean_token(#[trigger] otl[i]) && no_char(otl[i], ']')
            &&& crate::source_entry::opt_pairs_of(text::join_with(otl, seq![' ']))
                == e.options
        }),
{
    let otl = e.options.map_values(|p: OptPairView| crate::source_entry::opt_token_of(p));
    assert forall|i: int| 0 <= i < otl.len() implies clean_token(#[trigger] otl[i]) && no_char(
        otl[i],
        ']',
    ) by {
        lemma_opt_token_wf(e.options[i]);
    }
    lemma_tokens_of_join(otl);
    let jo = text::join_with(otl, seq![' ']);
    assert(text::tokens_of(jo) == otl);
    assert forall|i: int| 0 <= i < otl.len() implies crate::source_entry::pair_of_token(
        #[trigger] otl[i],
    ) == e.options[i] by {
        lemma_opt_token_wf(e.options[i]);
        let p = e.options[i];
        lemma_split_join(p.1, ',');
    }
    assert(crate::source_entry::opt_pairs_of(jo) =~~= e.options);
}

/// The joined text of the tokens after the kind keyword, its bracket block
/// dissected: where the first `]` falls, what the block re-parses to, and
/// which words follow it.
#[verifier::rlimit(100)]
#[verifier::spinoff_prover]
proof fn lemma_bracket_branch(e: EntryView)
    requires
        line_entry_wf(e),
        e.options.len() > 0,
    ensures
        ({
            let rest = line_tokens_of(e).skip(1);
            let joined = text::join_with(rest, seq![' ']).skip(1);
            let ln = text::join_with(
                e.options.map_values(|p: OptPairView| crate::source_entry::opt_token_of(p)),
                seq![' '],
            ).len() as int;
            &&& rest.len() > 0
            &&& rest[0].len() > 0 && rest[0][0] == '['
            &&& text::find_char_of(joined, ']') == Some(ln)
            &&& crate::source_entry::opt_pairs_of(joined.take(ln)) == e.options
            &&& text::tokens_of(joined.skip(ln + 1)) == seq![e.url, e.suite] + e.components
        }),
{
    let rest = line_tokens_of(e).skip(1);
    let otl = e.options.map_values(|p: OptPairView| crate::source_entry::opt_token_of(p));
    let tail2 = seq![e.url, e.suite] + e.components;
    let jo = text::join_with(otl, seq![' ']);
    let jt = text::join_with(tail2, seq![' ']);
    lemma_bracket_joined(e);
    let joined = text::join_with(rest, seq![' ']).skip(1);
    lemma_opt_tokens_facts(e);
    lemma_join_no_char(otl, ' ', ']');
    let ln = jo.len() as int;
    assert forall|k: int| 0 <= k < ln implies joined[k] != ']' by {
        assert(joined[k] == jo[k]);
    }
    assert(joined[ln] == ']');
    text::lemma_find_char_at(joined, ']', ln);
    assert(text::find_char_of(joined, ']') == Some(ln));
    let optraw = joined.take(ln);
    assert(optraw =~= jo);
    let after = joined.skip(ln + 1);
    assert(after =~= Seq::<char>::empty() + seq![' '] + jt);
    lemma_tokens_split(Seq::<char>::empty(), jt, ' ');
    assert forall|i: int| 0 <= i < tail2.len() implies clean_token(#[trigger] tail2[i]) by {}
    lemma_tokens_of_join(tail2);
    assert(text::tokens_of(after) =~~= tail2);
    assert(crate::source_entry::opt_pairs_of(optraw) == e.options);
}

/// The joined text after the kind keyword opens with the bracket, and reads
/// as the joined option words, the closing bracket, then a space and the
/// joined trailing words.
#[verifier::rlimit(100)]
#[verifier::spinoff_prover]
proof fn lemma_bracket_joined(e: EntryView)
    requires
        line_entry_wf(e),
        e.options.len() > 0,
    ensures
        ({
            let rest = line_tokens_of(e).skip(1);
            let otl = e.options.map_values(|p: OptPairView| crate::source_entry::opt_token_of(p));
            let tail2 = seq![e.url, e.suite] + e.components;
            &&& rest.len() > 0
            &&& rest[0].len() > 0 && rest[0][0] == '['
            &&& text::join_with(rest, seq![' ']).skip(1) =~= text::join_with(otl, seq![' '])
                + seq![']'] + (seq![' '] + text::join_with(tail2, seq![' ']))
        }),
{
    let rest = line_tokens_of(e).skip(1);
    let otl = e.options.map_values(|p: OptPairView| crate::source_entry::opt_token_of(p));
    assert forall|i: int| 0 <= i < otl.len() implies clean_token(#[trigger] otl[i]) by {
        lemma_opt_token_wf(e.options[i]);
    }
    lemma_bracket_tokens(otl);
    let bt = btoks_of(otl);
    let tail2 = seq![e.url, e.suite] + e.components;
    assert(rest =~~= bt + tail2);
    assert(rest[0] == bt[0]);
    assert(bt[0].len() > 0 && bt[0][0] == '[');
    let joined0 = text::join_with(rest, seq![' ']);
    assert(tail2.len() > 0);
    lemma_join_concat(bt, tail2);
    assert(joined0 == text::join_with(bt, seq![' ']) + seq![' '] + text::join_with(
        tail2,
        seq![' '],
    ));
    let jo = text::join_with(otl, seq![' ']);
    let jt = text::join_with(tail2, seq![' ']);
    assert(text::join_with(bt, seq![' ']) == seq!['['] + jo + seq![']']);
    assert(joined0.skip(1) =~= jo + seq![']'] + (seq![' '] + jt));
}

/// The bracketed-options shape of `lemma_parse_line_tokens`.
#[verifier::spinoff_prover]
proof fn lemma_parse_line_tokens_bracketed(e: EntryView)
    requires
        line_entry_wf(e),
        e.options.len() > 0,
    ensures
        ({
            let r = crate::source_entry::entry_parse_tokens(line_tokens_of(e));
            &&& r matches Ok(_)
            &&& (r->Ok_0).enabled == true
            &&& (r->Ok_0).source == e.source
            &&& (r->Ok_0).url == e.url
            &&& (r->Ok_0).suite == e.suite
            &&& (r->Ok_0).components == e.components
            &&& !(r->Ok_0).is_deb822
        }),
{
    reveal_strlit("deb");
    reveal_strlit("deb-src");
    let toks = line_tokens_of(e);
    assert(toks[0] == kindword(e));
    assert("deb"@.len() == 3 && "deb-src"@.len() == 7);
    assert(toks[0] == "deb"@ || toks[0] == "deb-src"@);
    let src = toks[0] == "deb-src"@;
    assert(src == e.source);
    let rest = toks.skip(1);
    lemma_bracket_branch(e);
    let joined = text::join_with(rest, seq![' ']).skip(1);
    let ln = text::find_char_of(joined, ']')->Some_0;
    let urltoks = text::tokens_of(joined.skip(ln + 1));
    assert(urltoks == seq![e.url, e.suite] + e.components);
    assert(urltoks.len() > 0);
    assert(urltoks[0] == e.url);
    let tail = urltoks.skip(1);
    assert(tail =~~= seq![e.suite] + e.components);
    assert(tail[0] == e.suite);
    assert(tail.skip(1) =~~= e.components);
    lemma_assemble_fields(src, e.options, e.url, tail);
}

/// The round trip of the one-line codec: parsing the rendering of any
/// well-formed entry without architectures, key material or a trusted flag
/// gives an entry again, with the same enabled flag, kind, URL, suite and
/// components.  Together with the parser's postconditions this is the
/// parse–format–parse idempotence of the one-line format; the one shape it
/// cannot cover is an entry with no options whose URL itself opens with `[`,
/// which the grammar cannot re-read.
pub proof fn lemma_line_round_trip(e: EntryView)
    requires
        line_entry_wf(e),
        e.archs is None,
        e.signed_by is None,
        !e.trusted,
    ensures
        ({
            let reparsed = crate::source_line::line_parse_of(
                crate::source_line::line_render(crate::source_line::LineView::Entry(e)),
            );
            &&& reparsed matches Ok(_)
            &&& (reparsed->Ok_0) matches crate::source_line::LineView::Entry(_)
            &&& ({
                let e2 = (reparsed->Ok_0)->Entry_0;
                &&& e2.enabled == e.enabled
                &&& e2.source == e.source
                &&& e2.url == e.url
                &&& e2.suite == e.suite
                &&& e2.components == e.components
            })
        }),
{
    reveal_strlit("# ");
    reveal_strlit("deb ");
    reveal_strlit("deb-src ");
    let rendered = crate::source_entry::entry_render(e);
    let core = core_render(e);
    lemma_core_tokens(e);
    lemma_parse_line_tokens(e);
    lemma_trailing_chars(rendered);
    let tsp = text::trailing_spaces(rendered) as int;
    if e.enabled {
        assert(rendered =~= core);
        assert(rendered[0] == 'd') by {
            if e.source {
                assert(core[0] == "deb-src "@[0]);
            } else {
                assert(core[0] == "deb "@[0]);
            }
        }
        assert(!text::is_space(rendered[0]));
        text::lemma_leading_spaces_at(rendered, 0);
        assert(tsp < rendered.len()) by {
            if tsp == rendered.len() {
                assert(text::is_space(rendered[0]));
            }
        }
        let t = text::trim_of(rendered);
        assert(t =~= rendered.take(rendered.len() - tsp));
        assert(t.len() > 0);
        assert(t[0] == rendered[0]);
        assert(t[0] != '#');
        lemma_tokens_take_trailing(rendered, tsp);
        assert(text::tokens_of(t) == line_tokens_of(e));
        assert(crate::source_entry::entry_parse_of(t) == crate::source_entry::entry_parse_tokens(
            line_tokens_of(e),
        ));
    } else {
        assert(rendered =~= "# "@ + core);
        assert(rendered.len() == core.len() + 2);
        assert(rendered[0] == '#');
        assert(!text::is_space('#'));
        text::lemma_leading_spaces_at(rendered, 0);
        assert(rendered[2] == core[0]);
        assert(core[0] == 'd') by {
            if e.source {
                assert(core[0] == "deb-src "@[0]);
            } else {
                assert(core[0] == "deb "@[0]);
            }
        }
        assert(rendered.len() - tsp >= 3) by {
            if rendered.len() - tsp <= 2 {
                assert(text::is_space(rendered[2]));
            }
        }
        let t = text::trim_of(rendered);
        assert(t =~= rendered.take(rendered.len() - tsp));
        assert(t.len() >= 3);
        assert(t[0] == '#');
        assert(text::is_prefix("# "@, t)) by {
            assert("# "@.len() == 2);
            assert(t.take(2)[0] == rendered[0]);
            assert(t.take(2)[1] == rendered[1]);
            assert(rendered[1] == "# "@[1]);
            assert(t.take("# "@.len() as int) =~= "# "@);
        }
        let sub = t.skip(2);
        assert(sub =~= core.take(core.len() - tsp));
        assert forall|k: int|
            core.len() - tsp <= k < core.len() implies text::is_space(#[trigger] core[k]) by {
            assert(rendered[k + 2] == core[k]);
            assert(text::is_space(rendered[k + 2]));
        }
        lemma_tokens_take_trailing(core, tsp);
        assert(text::tokens_of(sub) == line_tokens_of(e));
        assert(crate::source_entry::entry_parse_of(sub)
            == crate::source_entry::entry_parse_tokens(line_tokens_of(e)));
    }
}

/// Every word the tokenizer gives back is clean.
proof fn lemma_tokens_clean(s: Seq<char>)
    ensures
        forall|i: int|
            0 <= i < text::tokens_of(s).len() ==> clean_token(#[trigger] text::tokens_of(s)[i]),
    decreases s.len(),
{
    if s.len() == 0 {
    } else if text::is_space(s[0]) {
        lemma_tokens_clean(s.skip(1));
        assert(text::tokens_of(s) == text::tokens_of(s.skip(1)));
    } else {
        lemma_tok_len_chars(s);
        let n = text::tok_len(s) as int;
        lemma_tokens_clean(s.skip(n));
        let first = s.take(n);
        assert(clean_token(first)) by {
            assert(forall|k: int| 0 <= k < n ==> first[k] == (#[trigger] s[k]));
        }
        assert forall|i: int|
            0 <= i < text::tokens_of(s).len() implies clean_token(
            #[trigger] text::tokens_of(s)[i],
        ) by {
            if i > 0 {
                assert(text::tokens_of(s)[i] == text::tokens_of(s.skip(n))[i - 1]);
            } else {
                assert(text::tokens_of(s)[0] == first);
            }
        }
    }
}

/// Characters absent from the text are absent from its words.
proof fn lemma_tokens_no_char(s: Seq<char>, c: char)
    requires
        no_char(s, c),
    ensures
        forall|i: int|
            0 <= i < text::tokens_of(s).len() ==> no_char(#[trigger] text::tokens_of(s)[i], c),
    decreases s.len(),
{
    if s.len() == 0 {
    } else if text::is_space(s[0]) {
        assert(no_char(s.skip(1), c)) by {
            assert(forall|k: int| 0 <= k < s.len() - 1 ==> s.skip(1)[k] == (#[trigger] s[k + 1]));
        }
        lemma_tokens_no_char(s.skip(1), c);
        assert(text::tokens_of(s) == text::tokens_of(s.skip(1)));
    } else {
        lemma_tok_len_chars(s);
        let n = text::tok_len(s) as int;
        assert(no_char(s.skip(n), c)) by {
            assert(forall|k: int| 0 <= k < s.len() - n ==> s.skip(n)[k] == (#[trigger] s[k + n]));
        }
        lemma_tokens_no_char(s.skip(n), c);
        let first = s.take(n);
        assert(no_char(first, c)) by {
            assert(forall|k: int| 0 <= k < n ==> first[k] == (#[trigger] s[k]));
        }
        assert forall|i: int|
            0 <= i < text::tokens_of(s).len() implies no_char(
            #[trigger] text::tokens_of(s)[i],
            c,
        ) by {
            if i > 0 {
                assert(text::tokens_of(s)[i] == text::tokens_of(s.skip(n))[i - 1]);
            } else {
                assert(text::tokens_of(s)[0] == first);
            }
        }
    }
}

/// The pieces of a split carry no separator, and no character the whole text
/// did not carry; a split is never empty.
proof fn lemma_split_pieces(s: Seq<char>, sep: char)
    ensures
        text::split_char_of(s, sep).len() > 0,
        forall|i: int|
            0 <= i < text::split_char_of(s, sep).len() ==> no_char(
                #[trigger] text::split_char_of(s, sep)[i],
                sep,
            ),
        forall|i: int, k: int|
            0 <= i < text::split_char_of(s, sep).len() && 0 <= k < text::split_char_of(s, sep)[
            i].len() ==> (exists|q: int|
                0 <= q < s.len() && (#[trigger] text::split_char_of(s, sep)[i][k]) == s[q]),
    decreases s.len(),
{
    text::lemma_find_char_bounds(s, sep);
    match text::find_char_of(s, sep) {
        None => {
            assert(text::split_char_of(s, sep) == seq![s]);
            assert forall|i: int, k: int|
                0 <= i < text::split_char_of(s, sep).len() && 0 <= k < text::split_char_of(
                    s,
                    sep,
                )[i].len() implies (exists|q: int|
                0 <= q < s.len() && (#[trigger] text::split_char_of(s, sep)[i][k]) == s[q]) by {
                assert(text::split_char_of(s, sep)[i][k] == s[k]);
            }
        },
        Some(p) => {
            let rest = s.skip(p + 1);
            lemma_split_pieces(rest, sep);
            let whole = text::split_char_of(s, sep);
            assert(whole == seq![s.take(p)] + text::split_char_of(rest, sep));
            assert forall|i: int|
                0 <= i < whole.len() implies no_char(#[trigger] whole[i], sep) by {
                if i == 0 {
                    assert(forall|k: int| 0 <= k < p ==> s.take(p)[k] == (#[trigger] s[k]));
                } else {
                    assert(whole[i] == text::split_char_of(rest, sep)[i - 1]);
                }
            }
            assert forall|i: int, k: int|
                0 <= i < whole.len() && 0 <= k < whole[i].len() implies (exists|q: int|
                0 <= q < s.len() && (#[trigger] whole[i][k]) == s[q]) by {
                if i == 0 {
                    assert(whole[0][k] == s[k]);
                } else {
                    assert(whole[i] == text::split_char_of(rest, sep)[i - 1]);
                    let q = choose|q: int|
                        0 <= q < rest.len() && text::split_char_of(rest, sep)[i - 1][k]
                            == rest[q];
                    assert(rest[q] == s[q + p + 1]);
                }
            }
        },
    }
}

/// What parsing a raw option block gives is well-formed, provided the raw
/// text holds no `]`.
proof fn lemma_opt_pairs_wf(raw: Seq<char>)
    requires
        no_char(raw, ']'),
    ensures
        forall|i: int|
            0 <= i < crate::source_entry::opt_pairs_of(raw).len() ==> opt_pair_wf(
                #[trigger] crate::source_entry::opt_pairs_of(raw)[i],
            ),
{
    let toks = text::tokens_of(raw);
    lemma_tokens_clean(raw);
    lemma_tokens_no_char(raw, ']');
    assert forall|i: int|
        0 <= i < crate::source_entry::opt_pairs_of(raw).len() implies opt_pair_wf(
        #[trigger] crate::source_entry::opt_pairs_of(raw)[i],
    ) by {
        let t = toks[i];
        assert(crate::source_entry::opt_pairs_of(raw)[i] == crate::source_entry::pair_of_token(
            t,
        ));
        text::lemma_find_char_bounds(t, '=');
        match text::find_char_of(t, '=') {
            None => {
                assert(no_char(t, '='));
                lemma_split_pieces(Seq::<char>::empty(), ',');
                assert(text::split_char_of(Seq::<char>::empty(), ',')
                    =~~= seq![Seq::<char>::empty()]);
            },
            Some(p) => {
                let key = t.take(p);
                assert(forall|k: int| 0 <= k < p ==> key[k] == (#[trigger] t[k]));
                let v = t.skip(p + 1);
                assert(forall|k: int| 0 <= k < v.len() ==> v[k] == (#[trigger] t[k + p + 1]));
                lemma_split_pieces(v, ',');
                assert forall|j: int, k: int|
                    0 <= j < text::split_char_of(v, ',').len() && 0 <= k
                        < text::split_char_of(v, ',')[j].len() implies (!text::is_space(
                    #[trigger] text::split_char_of(v, ',')[j][k],
                ) && text::split_char_of(v, ',')[j][k] != ']') by {
                    let q = choose|q: int|
                        0 <= q < v.len() && text::split_char_of(v, ',')[j][k] == v[q];
                    assert(v[q] == t[q + p + 1]);
                }
            },
        }
    }
}

/// Option pairs that survive the reserved-key extraction stay well-formed.
proof fn lemma_drop_key_wf(pairs: Seq<OptPairView>, k: Seq<char>)
    requires
        forall|i: int| 0 <= i < pairs.len() ==> opt_pair_wf(#[trigger] pairs[i]),
    ensures
        forall|i: int|
            0 <= i < crate::source_entry::drop_key(pairs, k).len() ==> opt_pair_wf(
                #[trigger] crate::source_entry::drop_key(pairs, k)[i],
            ),
    decreases pairs.len(),
{
    if pairs.len() > 0 {
        let rest = pairs.skip(1);
        assert(forall|i: int| 0 <= i < rest.len() ==> rest[i] == (#[trigger] pairs[i + 1]));
        lemma_drop_key_wf(rest, k);
        let r = crate::source_entry::drop_key(pairs, k);
        if pairs[0].0 != k {
            assert forall|i: int| 0 <= i < r.len() implies opt_pair_wf(#[trigger] r[i]) by {
                if i > 0 {
                    assert(r[i] == crate::source_entry::drop_key(rest, k)[i - 1]);
                }
            }
        }
    }
}

/// Whatever the one-line token parser accepts is structurally well-formed:
/// clean URL, suite and components, well-formed options, enabled, and tagged
/// for the one-line format.
proof fn lemma_entry_parse_tokens_wf(toks: Seq<Seq<char>>)
    requires
        forall|i: int| 0 <= i < toks.len() ==> clean_token(#[trigger] toks[i]),
    ensures
        match crate::source_entry::entry_parse_tokens(toks) {
            Ok(e) => ({
                &&& clean_token(e.url)
                &&& clean_token(e.suite)
                &&& forall|i: int|
                    0 <= i < e.components.len() ==> clean_token(#[trigger] e.components[i])
                &&& forall|i: int|
                    0 <= i < e.options.len() ==> opt_pair_wf(#[trigger] e.options[i])
                &&& !e.is_deb822
                &&& e.enabled
                &&& e.source == (toks[0] == "deb-src"@)
            }),
            Err(_) => true,
        },
{
    let r = crate::source_entry::entry_parse_tokens(toks);
    if r is Ok {
        assert(toks.len() > 0);
        assert(toks[0] == "deb"@ || toks[0] == "deb-src"@);
        let src = toks[0] == "deb-src"@;
        let rest = toks.skip(1);
        assert(rest.len() > 0);
        assert(forall|i: int| 0 <= i < rest.len() ==> rest[i] == (#[trigger] toks[i + 1]));
        let t1 = rest[0];
        if t1.len() > 0 && t1[0] == '[' {
            let joined = text::join_with(rest, seq![' ']).skip(1);
            let p = text::find_char_of(joined, ']')->Some_0;
            text::lemma_find_char_bounds(joined, ']');
            let optraw = joined.take(p);
            let after = joined.skip(p + 1);
            let urltoks = text::tokens_of(after);
            assert(urltoks.len() > 0);
            lemma_tokens_clean(after);
            let tail = urltoks.skip(1);
            assert(forall|i: int|
                0 <= i < tail.len() ==> tail[i] == (#[trigger] urltoks[i + 1]));
            assert(tail.len() > 0);
            assert(no_char(optraw, ']')) by {
                assert(forall|k: int| 0 <= k < p ==> optraw[k] == (#[trigger] joined[k]));
            }
            lemma_opt_pairs_wf(optraw);
            let pairs = crate::source_entry::opt_pairs_of(optraw);
            lemma_drop_key_wf(pairs, "arch"@);
            let p1 = crate::source_entry::drop_key(pairs, "arch"@);
            lemma_drop_key_wf(p1, "signed-by"@);
            let p2 = crate::source_entry::drop_key(p1, "signed-by"@);
            lemma_drop_key_wf(p2, "trusted"@);
            assert(forall|i: int|
                0 <= i < tail.skip(1).len() ==> tail.skip(1)[i] == (#[trigger] tail[i + 1]));
        } else {
            let tail = rest.skip(1);
            assert(forall|i: int| 0 <= i < tail.len() ==> tail[i] == (#[trigger] rest[i + 1]));
            assert(tail.len() > 0);
            let pairs = Seq::<OptPairView>::empty();
            lemma_drop_key_wf(pairs, "arch"@);
            let p1 = crate::source_entry::drop_key(pairs, "arch"@);
            lemma_drop_key_wf(p1, "signed-by"@);
            let p2 = crate::source_entry::drop_key(p1, "signed-by"@);
            lemma_drop_key_wf(p2, "trusted"@);
            assert(forall|i: int|
                0 <= i < tail.skip(1).len() ==> tail.skip(1)[i] == (#[trigger] tail[i + 1]));
        }
    }
}

/// The parse–format–parse idempotence of the one-line codec, stated over the
/// input text: any line that parses to an entry without architectures, key
/// material or a trusted flag — and, when it carries no options, whose URL
/// does not open with `[` — renders to a line that parses back to an entry
/// with the same enabled flag, kind, URL, suite and components.  A URL that
/// opens with `[` behind an empty option block is the one input the grammar
/// cannot read back: its rendering looks like an option block.
pub proof fn lemma_parse_format_parse(s: Seq<char>)
    requires
        crate::source_line::line_parse_of(s) matches Ok(l) && l matches
            crate::source_line::LineView::Entry(e) && e.archs is None && e.signed_by is None
            && !e.trusted && (e.options.len() == 0 ==> e.url[0] != '['),
    ensures
        ({
            let e = (crate::source_line::line_parse_of(s)->Ok_0)->Entry_0;
            let reparsed = crate::source_line::line_parse_of(
                crate::source_line::line_render(crate::source_line::LineView::Entry(e)),
            );
            &&& reparsed matches Ok(_)
            &&& (reparsed->Ok_0) matches crate::source_line::LineView::Entry(_)
            &&& ({
                let e2 = (reparsed->Ok_0)->Entry_0;
                &&& e2.enabled == e.enabled
                &&& e2.source == e.source
                &&& e2.url == e.url
                &&& e2.suite == e.suite
                &&& e2.components == e.components
            })
        }),
{
    let e = (crate::source_line::line_parse_of(s)->Ok_0)->Entry_0;
    let t = text::trim_of(s);
    assert(t.len() > 0);
    if t[0] == '#' {
        assert(text::is_prefix("# "@, t));
        let sub = t.skip(2);
        lemma_tokens_clean(sub);
        lemma_entry_parse_tokens_wf(text::tokens_of(sub));
        let ep = crate::source_entry::entry_parse_of(sub);
        assert(ep is Ok);
        let e1 = ep->Ok_0;
        assert(e == (EntryView { enabled: false, ..e1 }));
        assert(line_entry_wf(e));
        lemma_line_round_trip(e);
    } else {
        lemma_tokens_clean(t);
        lemma_entry_parse_tokens_wf(text::tokens_of(t));
        assert(line_entry_wf(e));
        lemma_line_round_trip(e);
    }
}

} // verus!
