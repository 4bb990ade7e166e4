//! The deb822 codec: multi-field paragraph stanzas, expanded into flat
//! entries on parse and regrouped on write.

use vstd::prelude::*;
use crate::errors::SourceError;
use crate::errors::SourceErrorView;
use crate::signature::Signature;
use crate::signature::SignatureView;
use crate::signature::sig_parse;
use crate::signature::sig_render;
use crate::source_entry::EntryView;
use crate::source_entry::OptPairView;
use crate::source_entry::SourceEntry;
use crate::source_entry::opts_eq;
use crate::text;

verus! {

/// One `Key: value` field of a paragraph, as a mathematical value.
pub type FieldView = (Seq<char>, Seq<char>);

/// A line that only carries a remark: it opens with `#`.
pub open spec fn is_comment_line(l: Seq<char>) -> bool {
    l.len() > 0 && l[0] == '#'
}

/// A line of nothing but whitespace: it separates paragraphs.
pub open spec fn is_blank_line(l: Seq<char>) -> bool {
    text::trim_of(l).len() == 0
}

/// A continuation line: it opens with a space or tab and extends the value
/// of the field above it.
pub open spec fn is_cont_line(l: Seq<char>) -> bool {
    l.len() > 0 && (l[0] == ' ' || l[0] == '\t')
}

/// Reading one `Key: value` line: the key runs to the first colon and may
/// hold no whitespace; the value is the trimmed rest.
pub open spec fn field_of(l: Seq<char>) -> Result<FieldView, SourceErrorView> {
    match text::find_char_of(l, ':') {
        None => Err(SourceErrorView::SyntaxError { why: "expected a 'Key: value' field"@ }),
        Some(p) => {
            let k = l.take(p);
            if k.len() == 0 || text::has_space(k) {
                Err(SourceErrorView::SyntaxError { why: "invalid field name"@ })
            } else {
                Ok((k, text::trim_of(l.skip(p + 1))))
            }
        },
    }
}

/// First index of a field named `k`, if any.
pub open spec fn fields_find(fields: Seq<FieldView>, k: Seq<char>) -> Option<int>
    decreases fields.len(),
{
    if fields.len() == 0 {
        None
    } else if fields[0].0 == k {
        Some(0int)
    } else {
        match fields_find(fields.skip(1), k) {
            Some(i) => Some(i + 1),
            None => None,
        }
    }
}

pub proof fn lemma_fields_find_at(fields: Seq<FieldView>, k: Seq<char>, m: int)
    requires
        0 <= m <= fields.len(),
        forall|j: int| 0 <= j < m ==> fields[j].0 != k,
        m == fields.len() || fields[m].0 == k,
    ensures
        fields_find(fields, k) == if m == fields.len() {
            None::<int>
        } else {
            Some(m)
        },
    decreases fields.len(),
{
    if m == 0 {
    } else {
        assert(forall|j: int| 0 <= j < m - 1 ==> fields.skip(1)[j] == fields[j + 1]);
        lemma_fields_find_at(fields.skip(1), k, m - 1);
    }
}

/// Splitting lines into paragraphs of fields: comment lines are skipped,
/// blank lines close the open paragraph, continuation lines are folded into
/// the field above them (their first character dropped, the rest appended
/// after a newline), and any other line must read as a fresh `Key: value`
/// field, its name not yet taken in the paragraph.
pub open spec fn para_split(ls: Seq<Seq<char>>, cur: Seq<FieldView>) -> Result<
    Seq<Seq<FieldView>>,
    SourceErrorView,
>
    decreases ls.len(),
{
    if ls.len() == 0 {
        if cur.len() == 0 {
            Ok(Seq::empty())
        } else {
            Ok(seq![cur])
        }
    } else {
        let l = ls[0];
        if is_comment_line(l) {
            para_split(ls.skip(1), cur)
        } else if is_blank_line(l) {
            if cur.len() == 0 {
                para_split(ls.skip(1), cur)
            } else {
                match para_split(ls.skip(1), Seq::empty()) {
                    Ok(ps) => Ok(seq![cur] + ps),
                    Err(e) => Err(e),
                }
            }
        } else if is_cont_line(l) {
            if cur.len() == 0 {
                Err(SourceErrorView::SyntaxError { why: "continuation before any field"@ })
            } else {
                para_split(
                    ls.skip(1),
                    cur.drop_last().push((cur.last().0, cur.last().1 + seq!['\n'] + l.skip(1))),
                )
            }
        } else {
            match field_of(l) {
                Err(e) => Err(e),
                Ok(kv) => if fields_find(cur, kv.0) is Some {
                    Err(SourceErrorView::SyntaxError { why: "duplicate field"@ })
                } else {
                    para_split(ls.skip(1), cur.push(kv))
                },
            }
        }
    }
}

fn field_of_exec(l: &str) -> (r: Result<(String, String), SourceError>)
    ensures
        match r {
            Ok(kv) => field_of(l@) == Ok::<FieldView, SourceErrorView>(kv.deep_view()),
            Err(e) => field_of(l@) == Err::<FieldView, SourceErrorView>(e@),
        },
{
    match text::find_char(l, ':') {
        None => Err(
            SourceError::SyntaxError { why: String::from_str("expected a 'Key: value' field") },
        ),
        Some(p) => {
            proof {
                text::lemma_find_char_bounds(l@, ':');
            }
            let n: usize = l.unicode_len();
            let k = l.substring_char(0, p);
            proof {
                assert(k@ =~= l@.take(p as int));
            }
            if k.unicode_len() == 0 || text::has_space_str(k) {
                Err(SourceError::SyntaxError { why: String::from_str("invalid field name") })
            } else {
                let rest = l.substring_char(p + 1, n);
                proof {
                    assert(rest@ =~= l@.skip(p + 1));
                }
                let v = text::trim(rest);
                Ok((String::from_str(k), v))
            }
        },
    }
}

fn fields_find_exec(fields: &Vec<(String, String)>, k: &str) -> (r: Option<usize>)
    ensures
        match r {
            Some(u) => u < fields@.len() && fields_find(fields.deep_view(), k@) == Some(u as int),
            None => fields_find(fields.deep_view(), k@) == None::<int>,
        },
{
    let mut i: usize = 0;
    while i < fields.len()
        invariant
            i <= fields@.len(),
            fields.deep_view().len() == fields@.len(),
            forall|j: int| 0 <= j < i ==> fields.deep_view()[j].0 != k@,
        decreases fields@.len() - i,
    {
        if text::str_eq(fields[i].0.as_str(), k) {
            proof {
                assert(fields.deep_view()[i as int].0 == k@);
                lemma_fields_find_at(fields.deep_view(), k@, i as int);
            }
            return Some(i);
        }
        proof {
            assert(fields.deep_view()[i as int].0 != k@);
        }
        i = i + 1;
    }
    proof {
        lemma_fields_find_at(fields.deep_view(), k@, fields.deep_view().len() as int);
    }
    None
}

/// Splits the text's lines into paragraphs of `Key: value` fields.
fn para_split_exec(s: &str) -> (r: Result<Vec<Vec<(String, String)>>, SourceError>)
    ensures
        match r {
            Ok(ps) => para_split(text::lines_of(s@), Seq::empty()) == Ok::<
                Seq<Seq<FieldView>>,
                SourceErrorView,
            >(ps.deep_view()),
            Err(e) => para_split(text::lines_of(s@), Seq::empty()) == Err::<
                Seq<Seq<FieldView>>,
                SourceErrorView,
            >(e@),
        },
{
    let raw = text::split_lines(s);
    let ghost lv = text::lines_of(s@);
    let mut paras: Vec<Vec<(String, String)>> = Vec::new();
    let mut cur: Vec<(String, String)> = Vec::new();
    let mut i: usize = 0;
    proof {
        assert(lv.skip(0) =~~= lv);
        assert(paras.deep_view() =~~= Seq::<Seq<FieldView>>::empty());
        assert(cur.deep_view() =~~= Seq::<FieldView>::empty());
    }
    while i < raw.len()
        invariant
            i <= raw@.len(),
            raw.deep_view() == lv,
            lv == text::lines_of(s@),
            para_split(lv, Seq::empty()) == (match para_split(
                lv.skip(i as int),
                cur.deep_view(),
            ) {
                Ok(ps) => Ok::<Seq<Seq<FieldView>>, SourceErrorView>(paras.deep_view() + ps),
                Err(e) => Err::<Seq<Seq<FieldView>>, SourceErrorView>(e),
            }),
        decreases raw@.len() - i,
    {
        let ghost rest = lv.skip(i as int);
        let ghost curv = cur.deep_view();
        let ghost parasv = paras.deep_view();
        proof {
            assert(rest[0] == lv[i as int]);
            assert(rest.skip(1) =~~= lv.skip(i + 1));
        }
        let l = &raw[i];
        let llen: usize = l.as_str().unicode_len();
        if llen > 0 && l.as_str().get_char(0) == '#' {
            // a remark: skipped
        } else {
            let t = text::trim(l.as_str());
            if t.as_str().unicode_len() == 0 {
                if cur.len() > 0 {
                    let full = cur;
                    cur = Vec::new();
                    paras.push(full);
                    proof {
                        let cont = para_split(lv.skip(i + 1), Seq::empty());
                        if cont is Ok {
                            let ps2 = cont->Ok_0;
                            assert(parasv + (seq![curv] + ps2) =~~= paras.deep_view() + ps2);
                        }
                        assert(cur.deep_view() =~~= Seq::<FieldView>::empty());
                    }
                }
            } else if llen > 0 && (l.as_str().get_char(0) == ' ' || l.as_str().get_char(0)
                == '\t') {
                if cur.len() == 0 {
                    return Err(
                        SourceError::SyntaxError {
                            why: String::from_str("continuation before any field"),
                        },
                    );
                }
                let kv = match cur.pop() {
                    Some(kv) => kv,
                    None => {
                        proof {
                            assert(false);
                        }
                        (String::new(), String::new())
                    },
                };
                let contline = l.as_str().substring_char(1, llen);
                let mut newval = kv.1;
                newval.append("\n");
                newval.append(contline);
                cur.push((kv.0, newval));
                proof {
                    reveal_strlit("\n");
                    assert("\n"@ =~= seq!['\n']);
                    assert(contline@ =~= rest[0].skip(1));
                    assert(cur.deep_view() =~~= curv.drop_last().push(
                        (curv.last().0, curv.last().1 + seq!['\n'] + rest[0].skip(1)),
                    ));
                }
            } else {
                match field_of_exec(l.as_str()) {
                    Err(e) => {
                        return Err(e);
                    },
                    Ok(kv) => {
                        match fields_find_exec(&cur, kv.0.as_str()) {
                            Some(_) => {
                                return Err(
                                    SourceError::SyntaxError {
                                        why: String::from_str("duplicate field"),
                                    },
                                );
                            },
                            None => {
                                cur.push(kv);
                                proof {
                                    assert(cur.deep_view() =~~= curv.push(
                                        field_of(rest[0])->Ok_0,
                                    ));
                                }
                            },
                        }
                    },
                }
            }
        }
        i = i + 1;
    }
    proof {
        assert(lv.skip(i as int) =~~= Seq::<Seq<char>>::empty());
    }
    if cur.len() > 0 {
        let ghost parasv = paras.deep_view();
        let ghost curv = cur.deep_view();
        paras.push(cur);
        proof {
            assert(parasv + seq![curv] =~~= paras.deep_view());
        }
    } else {
        proof {
            assert(paras.deep_view() + Seq::<Seq<FieldView>>::empty() =~~= paras.deep_view());
        }
    }
    Ok(paras)
}

/// The field names a paragraph spends on the typed parts of an entry; every
/// other field passes through as a generic option.
pub open spec fn is_reserved_key(k: Seq<char>) -> bool {
    ||| k == "Enabled"@
    ||| k == "Types"@
    ||| k == "URIs"@
    ||| k == "Suites"@
    ||| k == "Components"@
    ||| k == "Architectures"@
    ||| k == "Signed-By"@
    ||| k == "Trusted"@
}

/// The value of the field named `k`, if the paragraph has one.
pub open spec fn fget(fields: Seq<FieldView>, k: Seq<char>) -> Option<Seq<char>> {
    match fields_find(fields, k) {
        Some(i) => Some(fields[i].1),
        None => None,
    }
}

/// Reading a `Types` value: a space- or comma-separated list of `deb` and
/// `deb-src` (`true` standing for `deb-src`); anything malformed or empty
/// falls back to plain `deb`.
pub open spec fn types_of(v: Seq<char>) -> Seq<bool> {
    let toks = text::tokens_of(text::replace_of(v, seq![','], seq![' ']));
    if toks.len() > 0 && (forall|i: int|
        0 <= i < toks.len() ==> (#[trigger] toks[i]) == "deb"@ || toks[i] == "deb-src"@) {
        toks.map_values(|t: Seq<char>| t == "deb-src"@)
    } else {
        seq![false]
    }
}

/// One entry per source kind, for a fixed URI and suite.
pub open spec fn expand_types(
    types: Seq<bool>,
    proto: EntryView,
    uri: Seq<char>,
    suite: Seq<char>,
) -> Seq<EntryView> {
    types.map_values(
        |t: bool| EntryView { source: t, url: uri, suite: suite, ..proto },
    )
}

/// The entries of all URIs, for a fixed suite.
pub open spec fn expand_uris(
    uris: Seq<Seq<char>>,
    types: Seq<bool>,
    proto: EntryView,
    suite: Seq<char>,
) -> Seq<EntryView>
    decreases uris.len(),
{
    if uris.len() == 0 {
        Seq::empty()
    } else {
        expand_types(types, proto, uris[0], suite) + expand_uris(uris.skip(1), types, proto, suite)
    }
}

/// One entry for every (suite, uri, type) triple, suites outermost.
pub open spec fn expand_all(
    suites: Seq<Seq<char>>,
    uris: Seq<Seq<char>>,
    types: Seq<bool>,
    proto: EntryView,
) -> Seq<EntryView>
    decreases suites.len(),
{
    if suites.len() == 0 {
        Seq::empty()
    } else {
        expand_uris(uris, types, proto, suites[0]) + expand_all(suites.skip(1), uris, types, proto)
    }
}

/// The generic options of a paragraph: every non-reserved field, in order,
/// its value split on whitespace.
pub open spec fn para_options(fields: Seq<FieldView>) -> Seq<OptPairView> {
    fields.filter(|f: FieldView| !is_reserved_key(f.0)).map_values(
        |f: FieldView| (f.0, text::tokens_of(f.1)),
    )
}

/// The entries one paragraph yields: the cartesian product of its suites,
/// URIs and types, all sharing the paragraph's other fields.  `URIs` and a
/// non-empty `Suites` must be present; everything else has a default.
pub open spec fn para_entries_of(fields: Seq<FieldView>) -> Result<Seq<EntryView>, SourceErrorView> {
    match fget(fields, "URIs"@) {
        None => Err(SourceErrorView::SyntaxError { why: "missing URIs field"@ }),
        Some(uv) => match fget(fields, "Suites"@) {
            None => Err(SourceErrorView::SyntaxError { why: "missing Suites field"@ }),
            Some(sv) => {
                let suites = text::tokens_of(sv);
                if suites.len() == 0 {
                    Err(SourceErrorView::SyntaxError { why: "empty Suites field"@ })
                } else {
                    let proto = EntryView {
                        enabled: match fget(fields, "Enabled"@) {
                            Some(x) => x == "yes"@,
                            None => true,
                        },
                        source: false,
                        options: para_options(fields),
                        url: Seq::empty(),
                        suite: Seq::empty(),
                        components: match fget(fields, "Components"@) {
                            Some(cv) => text::tokens_of(cv),
                            None => Seq::empty(),
                        },
                        archs: match fget(fields, "Architectures"@) {
                            Some(av) => Some(text::tokens_of(av)),
                            None => None,
                        },
                        signed_by: match fget(fields, "Signed-By"@) {
                            Some(bv) => Some(sig_parse(bv)),
                            None => None,
                        },
                        trusted: match fget(fields, "Trusted"@) {
                            Some(tv) => tv == "yes"@,
                            None => false,
                        },
                        is_deb822: true,
                    };
                    let types = match fget(fields, "Types"@) {
                        Some(tv) => types_of(tv),
                        None => seq![false],
                    };
                    Ok(expand_all(suites, text::tokens_of(uv), types, proto))
                }
            },
        },
    }
}

/// The entries of a whole sequence of paragraphs, in order.
pub open spec fn paras_entries_of(ps: Seq<Seq<FieldView>>) -> Result<
    Seq<EntryView>,
    SourceErrorView,
>
    decreases ps.len(),
{
    if ps.len() == 0 {
        Ok(Seq::empty())
    } else {
        match para_entries_of(ps[0]) {
            Err(e) => Err(e),
            Ok(es) => match paras_entries_of(ps.skip(1)) {
                Err(e) => Err(e),
                Ok(r) => Ok(es + r),
            },
        }
    }
}

/// Parsing a whole deb822 text: paragraphs, then expansion.
pub open spec fn deb822_parse_of(s: Seq<char>) -> Result<Seq<EntryView>, SourceErrorView> {
    match para_split(text::lines_of(s), Seq::empty()) {
        Err(e) => Err(e),
        Ok(ps) => paras_entries_of(ps),
    }
}

/// Every entry is tagged for the deb822 format.
pub open spec fn deb822_wf(es: Seq<EntryView>) -> bool {
    forall|i: int| 0 <= i < es.len() ==> (#[trigger] es[i]).is_deb822
}

fn fget_exec(fields: &Vec<(String, String)>, k: &str) -> (r: Option<String>)
    ensures
        match r {
            Some(v) => fget(fields.deep_view(), k@) == Some(v@),
            None => fget(fields.deep_view(), k@) == None::<Seq<char>>,
        },
{
    match fields_find_exec(fields, k) {
        Some(i) => Some(String::from_str(fields[i].1.as_str())),
        None => None,
    }
}

fn types_exec(v: &str) -> (r: Vec<bool>)
    ensures
        r@ == types_of(v@),
{
    let spaced = text::replace(v, ",", " ");
    proof {
        reveal_strlit(",");
        reveal_strlit(" ");
        assert(","@ =~= seq![',']);
        assert(" "@ =~= seq![' ']);
    }
    let toks = text::tokenize(spaced.as_str());
    let ghost tv = text::tokens_of(text::replace_of(v@, seq![','], seq![' ']));
    let mut all_valid = toks.len() > 0;
    let mut bools: Vec<bool> = Vec::new();
    let mut i: usize = 0;
    while i < toks.len()
        invariant
            i <= toks@.len(),
            toks.deep_view() == tv,
            bools@.len() == i,
            forall|k: int| 0 <= k < i ==> bools@[k] == (tv[k] == "deb-src"@),
            all_valid == (toks@.len() > 0 && forall|k: int|
                0 <= k < i ==> (#[trigger] tv[k]) == "deb"@ || tv[k] == "deb-src"@),
        decreases toks@.len() - i,
    {
        let ghost old_valid = all_valid;
        let is_src = text::str_eq(toks[i].as_str(), "deb-src");
        let is_deb = text::str_eq(toks[i].as_str(), "deb");
        if !is_deb && !is_src {
            all_valid = false;
        }
        bools.push(is_src);
        proof {
            if all_valid {
                assert forall|k: int|
                    0 <= k < i + 1 implies (#[trigger] tv[k]) == "deb"@ || tv[k]
                    == "deb-src"@ by {}
            } else {
                if old_valid {
                    assert(!(tv[i as int] == "deb"@ || tv[i as int] == "deb-src"@));
                } else {
                    if toks@.len() > 0 {
                        let k0 = choose|k: int|
                            0 <= k < i && !((#[trigger] tv[k]) == "deb"@ || tv[k] == "deb-src"@);
                        assert(!(tv[k0] == "deb"@ || tv[k0] == "deb-src"@));
                    }
                }
            }
        }
        i = i + 1;
    }
    if all_valid {
        proof {
            assert(bools@ =~= tv.map_values(|t: Seq<char>| t == "deb-src"@));
        }
        bools
    } else {
        let r = vec![false];
        proof {
            assert(r@ =~= seq![false]);
        }
        r
    }
}

/// The generic options of a paragraph, in field order.
fn para_options_exec(fields: &Vec<(String, String)>) -> (r: Vec<(String, Vec<String>)>)
    ensures
        r.deep_view() == para_options(fields.deep_view()),
{
    let ghost fv = fields.deep_view();
    let mut r: Vec<(String, Vec<String>)> = Vec::new();
    let mut i: usize = 0;
    proof {
        assert(fv.take(0) =~~= Seq::<FieldView>::empty());
        assert(r.deep_view() =~~= para_options(fv.take(0)));
    }
    while i < fields.len()
        invariant
            i <= fields@.len(),
            fields.deep_view() == fv,
            r.deep_view() =~~= para_options(fv.take(i as int)),
        decreases fields@.len() - i,
    {
        let ghost prev = r.deep_view();
        let key = &fields[i].0;
        let reserved = text::str_eq(key.as_str(), "Enabled") || text::str_eq(key.as_str(), "Types")
            || text::str_eq(key.as_str(), "URIs") || text::str_eq(key.as_str(), "Suites")
            || text::str_eq(key.as_str(), "Components") || text::str_eq(
            key.as_str(),
            "Architectures",
        ) || text::str_eq(key.as_str(), "Signed-By") || text::str_eq(key.as_str(), "Trusted");
        if !reserved {
            let vals = text::tokenize(fields[i].1.as_str());
            r.push((String::from_str(key.as_str()), vals));
        }
        proof {
            assert(fv.take(i + 1) =~~= fv.take(i as int).push(fv[i as int]));
            text::lemma_filter_push(
                fv.take(i as int),
                |f: FieldView| !is_reserved_key(f.0),
                fv[i as int],
            );
            assert(reserved == is_reserved_key(fv[i as int].0));
            if !reserved {
                assert(r.deep_view() =~~= prev.push(
                    (fv[i as int].0, text::tokens_of(fv[i as int].1)),
                ));
            }
            assert(r.deep_view() =~~= para_options(fv.take(i + 1)));
        }
        i = i + 1;
    }
    proof {
        assert(fv.take(fv.len() as int) =~~= fv);
    }
    r
}

/// Mathematical model of a [`SourceListDeb822`]: the flat entry list.
#[derive(Debug, Clone)]
pub struct SourceListDeb822 {
    /// The flat entries the paragraphs expand into.
    pub entries: Vec<SourceEntry>,
}

impl View for SourceListDeb822 {
    type V = Seq<EntryView>;

    open spec fn view(&self) -> Seq<EntryView> {
        self.entries.deep_view()
    }
}

/// The entries of one paragraph, already split into parts.
fn para_entries_exec(fields: &Vec<(String, String)>) -> (r: Result<Vec<SourceEntry>, SourceError>)
    ensures
        match r {
            Ok(es) => para_entries_of(fields.deep_view()) == Ok::<Seq<EntryView>, SourceErrorView>(
                es.deep_view(),
            ) && deb822_wf(es.deep_view()),
            Err(e) => para_entries_of(fields.deep_view()) == Err::<Seq<EntryView>, SourceErrorView>(
                e@,
            ),
        },
{
    let ghost fv = fields.deep_view();
    let uv = match fget_exec(fields, "URIs") {
        None => {
            return Err(SourceError::SyntaxError { why: String::from_str("missing URIs field") });
        },
        Some(uv) => uv,
    };
    let sv = match fget_exec(fields, "Suites") {
        None => {
            return Err(SourceError::SyntaxError { why: String::from_str("missing Suites field") });
        },
        Some(sv) => sv,
    };
    let suites = text::tokenize(sv.as_str());
    if suites.len() == 0 {
        return Err(SourceError::SyntaxError { why: String::from_str("empty Suites field") });
    }
    let uris = text::tokenize(uv.as_str());
    let enabled = match fget_exec(fields, "Enabled") {
        Some(x) => text::str_eq(x.as_str(), "yes"),
        None => true,
    };
    let components = match fget_exec(fields, "Components") {
        Some(cv) => text::tokenize(cv.as_str()),
        None => Vec::new(),
    };
    let archs = match fget_exec(fields, "Architectures") {
        Some(av) => Some(text::tokenize(av.as_str())),
        None => None,
    };
    let signed_by = match fget_exec(fields, "Signed-By") {
        Some(bv) => Some(Signature::parse(bv.as_str())),
        None => None,
    };
    let trusted = match fget_exec(fields, "Trusted") {
        Some(tv) => text::str_eq(tv.as_str(), "yes"),
        None => false,
    };
    let options = para_options_exec(fields);
    let types = match fget_exec(fields, "Types") {
        Some(tv) => types_exec(tv.as_str()),
        None => {
            let d = vec![false];
            proof {
                assert(d@ =~= seq![false]);
            }
            d
        },
    };
    let proto = SourceEntry {
        enabled,
        source: false,
        options,
        url: String::new(),
        suite: String::new(),
        components,
        archs,
        signed_by,
        trusted,
        is_deb822: true,
    };
    let ghost protov = proto@;
    let ghost suitesv = suites.deep_view();
    let ghost urisv = uris.deep_view();
    let ghost typesv = types@;
    let mut out: Vec<SourceEntry> = Vec::new();
    let mut si: usize = 0;
    proof {
        assert(suitesv.skip(0) =~~= suitesv);
        assert(out.deep_view() + expand_all(suitesv, urisv, typesv, protov) =~~= expand_all(
            suitesv,
            urisv,
            typesv,
            protov,
        ));
    }
    while si < suites.len()
        invariant
            si <= suites@.len(),
            suites.deep_view() == suitesv,
            uris.deep_view() == urisv,
            types@ == typesv,
            proto@ == protov,
            proto.is_deb822,
            deb822_wf(out.deep_view()),
            out.deep_view() + expand_all(suitesv.skip(si as int), urisv, typesv, protov)
                =~~= expand_all(suitesv, urisv, typesv, protov),
        decreases suites@.len() - si,
    {
        let ghost mid0 = out.deep_view();
        let mut ui: usize = 0;
        proof {
            assert(urisv.skip(0) =~~= urisv);
            assert(suitesv.skip(si as int)[0] == suitesv[si as int]);
            assert(suitesv.skip(si as int).skip(1) =~~= suitesv.skip(si + 1));
        }
        while ui < uris.len()
            invariant
                ui <= uris@.len(),
                si < suites@.len(),
                suites.deep_view() == suitesv,
                uris.deep_view() == urisv,
                types@ == typesv,
                proto@ == protov,
                proto.is_deb822,
                deb822_wf(out.deep_view()),
                out.deep_view() + expand_uris(urisv.skip(ui as int), typesv, protov, suitesv[si as int])
                    =~~= mid0 + expand_uris(urisv, typesv, protov, suitesv[si as int]),
            decreases uris@.len() - ui,
        {
            let ghost mid1 = out.deep_view();
            let mut ti: usize = 0;
            proof {
                assert(urisv.skip(ui as int)[0] == urisv[ui as int]);
                assert(urisv.skip(ui as int).skip(1) =~~= urisv.skip(ui + 1));
            }
            while ti < types.len()
                invariant
                    ti <= types@.len(),
                    ui < uris@.len(),
                    si < suites@.len(),
                    suites.deep_view() == suitesv,
                    uris.deep_view() == urisv,
                    types@ == typesv,
                    proto@ == protov,
                    proto.is_deb822,
                    deb822_wf(out.deep_view()),
                    out.deep_view().len() == mid1.len() + ti,
                    forall|k: int| 0 <= k < mid1.len() ==> out.deep_view()[k] == mid1[k],
                    forall|k: int|
                        0 <= k < ti ==> out.deep_view()[mid1.len() + k] == (EntryView {
                            source: typesv[k],
                            url: urisv[ui as int],
                            suite: suitesv[si as int],
                            ..protov
                        }),
                decreases types@.len() - ti,
            {
                let ghost prev = out.deep_view();
                let mut e = proto.duplicate();
                e.source = types[ti];
                e.url = String::from_str(uris[ui].as_str());
                e.suite = String::from_str(suites[si].as_str());
                proof {
                    assert(e@ =~= (EntryView {
                        source: typesv[ti as int],
                        url: urisv[ui as int],
                        suite: suitesv[si as int],
                        ..protov
                    }));
                }
                out.push(e);
                proof {
                    assert(forall|k: int| 0 <= k < prev.len() ==> out.deep_view()[k] == prev[k]);
                    assert forall|k: int| 0 <= k < out.deep_view().len() implies (
                    #[trigger] out.deep_view()[k]).is_deb822 by {
                        if k < prev.len() {
                            assert(out.deep_view()[k] == prev[k]);
                        } else {
                            assert(out.deep_view()[k] == e@);
                        }
                    }
                }
                ti = ti + 1;
            }
            proof {
                let block = expand_types(typesv, protov, urisv[ui as int], suitesv[si as int]);
                assert(out.deep_view() =~~= mid1 + block);
                assert(mid1 + (block + expand_uris(urisv.skip(ui + 1), typesv, protov, suitesv[si as int]))
                    =~~= (mid1 + block) + expand_uris(
                    urisv.skip(ui + 1),
                    typesv,
                    protov,
                    suitesv[si as int],
                ));
            }
            ui = ui + 1;
        }
        proof {
            assert(urisv.skip(uris@.len() as int) =~~= Seq::<Seq<char>>::empty());
            assert(out.deep_view() + Seq::<EntryView>::empty() =~~= out.deep_view());
            assert(out.deep_view() =~~= mid0 + expand_uris(urisv, typesv, protov, suitesv[si as int]));
        }
        si = si + 1;
    }
    proof {
        assert(suitesv.skip(suites@.len() as int) =~~= Seq::<Seq<char>>::empty());
        assert(out.deep_view() + Seq::<EntryView>::empty() =~~= out.deep_view());
        assert(out.deep_view() =~~= expand_all(suitesv, urisv, typesv, protov));
        assert(protov =~= (EntryView {
            enabled: match fget(fv, "Enabled"@) {
                Some(x) => x == "yes"@,
                None => true,
            },
            source: false,
            options: para_options(fv),
            url: Seq::empty(),
            suite: Seq::empty(),
            components: match fget(fv, "Components"@) {
                Some(cv) => text::tokens_of(cv),
                None => Seq::empty(),
            },
            archs: match fget(fv, "Architectures"@) {
                Some(av) => Some(text::tokens_of(av)),
                None => None,
            },
            signed_by: match fget(fv, "Signed-By"@) {
                Some(bv) => Some(sig_parse(bv)),
                None => None,
            },
            trusted: match fget(fv, "Trusted"@) {
                Some(w) => w == "yes"@,
                None => false,
            },
            is_deb822: true,
        }));
        assert(typesv == (match fget(fv, "Types"@) {
            Some(w) => types_of(w),
            None => seq![false],
        }));
        assert(para_entries_of(fv) == Ok::<Seq<EntryView>, SourceErrorView>(out.deep_view())) by {
            assert(para_entries_of(fv)->Ok_0 == expand_all(suitesv, urisv, typesv, protov));
        }
    }
    Ok(out)
}

impl SourceListDeb822 {
    /// Parses a deb822 text into its flat entries, as `deb822_parse_of`
    /// describes; every paragraph must be well-formed, name its URIs and at
    /// least one suite.
    pub fn parse(s: &str) -> (r: Result<SourceListDeb822, SourceError>)
        ensures
            match r {
                Ok(list) => deb822_parse_of(s@) == Ok::<Seq<EntryView>, SourceErrorView>(list@)
                    && deb822_wf(list@),
                Err(e) => deb822_parse_of(s@) == Err::<Seq<EntryView>, SourceErrorView>(e@),
            },
    {
        let paras = match para_split_exec(s) {
            Err(e) => {
                return Err(e);
            },
            Ok(ps) => ps,
        };
        let ghost pv = paras.deep_view();
        let mut entries: Vec<SourceEntry> = Vec::new();
        let mut i: usize = 0;
        proof {
            assert(pv.skip(0) =~~= pv);
        }
        while i < paras.len()
            invariant
                i <= paras@.len(),
                paras.deep_view() == pv,
                para_split(text::lines_of(s@), Seq::empty()) == Ok::<
                    Seq<Seq<FieldView>>,
                    SourceErrorView,
                >(pv),
                deb822_wf(entries.deep_view()),
                paras_entries_of(pv) == (match paras_entries_of(pv.skip(i as int)) {
                    Ok(rest) => Ok::<Seq<EntryView>, SourceErrorView>(entries.deep_view() + rest),
                    Err(e) => Err::<Seq<EntryView>, SourceErrorView>(e),
                }),
            decreases paras@.len() - i,
        {
            let ghost prev = entries.deep_view();
            proof {
                assert(pv.skip(i as int)[0] == pv[i as int]);
                assert(pv.skip(i as int).skip(1) =~~= pv.skip(i + 1));
            }
            match para_entries_exec(&paras[i]) {
                Err(e) => {
                    proof {
                        assert(paras_entries_of(pv.skip(i as int)) == Err::<
                            Seq<EntryView>,
                            SourceErrorView,
                        >(e@));
                    }
                    return Err(e);
                },
                Ok(mut es) => {
                    let ghost esv = es.deep_view();
                    let mut k: usize = 0;
                    while k < es.len()
                        invariant
                            k <= es@.len(),
                            es.deep_view() == esv,
                            deb822_wf(esv),
                            deb822_wf(prev),
                            entries.deep_view() =~~= prev + esv.take(k as int),
                        decreases es@.len() - k,
                    {
                        let ghost mid = entries.deep_view();
                        let one = es[k].duplicate();
                        entries.push(one);
                        proof {
                            assert(esv.take(k + 1) =~~= esv.take(k as int).push(esv[k as int]));
                            assert(entries.deep_view() =~~= mid.push(esv[k as int]));
                        }
                        k = k + 1;
                    }
                    proof {
                        assert(esv.take(es@.len() as int) =~~= esv);
                        assert(entries.deep_view() =~~= prev + esv);
                        assert forall|j: int| 0 <= j < entries.deep_view().len() implies (
                        #[trigger] entries.deep_view()[j]).is_deb822 by {
                            if j < prev.len() {
                                assert(entries.deep_view()[j] == prev[j]);
                            } else {
                                assert(entries.deep_view()[j] == esv[j - prev.len()]);
                            }
                        }
                        let cont = paras_entries_of(pv.skip(i + 1));
                        if cont is Ok {
                            let r2 = cont->Ok_0;
                            assert(prev + (esv + r2) =~~= entries.deep_view() + r2);
                        }
                    }
                    i = i + 1;
                },
            }
        }
        proof {
            assert(pv.skip(i as int) =~~= Seq::<Seq<FieldView>>::empty());
            assert(entries.deep_view() + Seq::<EntryView>::empty() =~~= entries.deep_view());
        }
        Ok(SourceListDeb822 { entries })
    }
}


/// What groups entries into one paragraph: URL, kind and generic options,
/// the suite left out.
pub open spec fn entry_key(e: EntryView) -> (Seq<char>, bool, Seq<OptPairView>) {
    (e.url, e.source, e.options)
}

/// The distinct group keys of the entries, in first-encounter order.
pub open spec fn keys_of(es: Seq<EntryView>) -> Seq<(Seq<char>, bool, Seq<OptPairView>)>
    decreases es.len(),
{
    if es.len() == 0 {
        Seq::empty()
    } else {
        let r = keys_of(es.drop_last());
        if r.contains(entry_key(es.last())) {
            r
        } else {
            r.push(entry_key(es.last()))
        }
    }
}

/// The suites of the entries keyed `k`, in order.
pub open spec fn suites_of(es: Seq<EntryView>, k: (Seq<char>, bool, Seq<OptPairView>)) -> Seq<
    Seq<char>,
>
    decreases es.len(),
{
    if es.len() == 0 {
        Seq::empty()
    } else if entry_key(es[0]) == k {
        seq![es[0].suite] + suites_of(es.skip(1), k)
    } else {
        suites_of(es.skip(1), k)
    }
}

/// The first entry keyed `k`: the one whose other fields the paragraph takes.
pub open spec fn rep_of(es: Seq<EntryView>, k: (Seq<char>, bool, Seq<OptPairView>)) -> EntryView
    decreases es.len(),
{
    if es.len() == 0 {
        arbitrary()
    } else if entry_key(es[0]) == k {
        es[0]
    } else {
        rep_of(es.skip(1), k)
    }
}

/// All the pieces, one after the other.
pub open spec fn concat_all(xs: Seq<Seq<char>>) -> Seq<char>
    decreases xs.len(),
{
    if xs.len() == 0 {
        Seq::empty()
    } else {
        xs[0] + concat_all(xs.skip(1))
    }
}

pub proof fn lemma_concat_all_push(xs: Seq<Seq<char>>, x: Seq<char>)
    ensures
        concat_all(xs.push(x)) == concat_all(xs) + x,
    decreases xs.len(),
{
    if xs.len() == 0 {
        assert(xs.push(x)[0] == x);
        assert(xs.push(x).skip(1) =~~= Seq::<Seq<char>>::empty());
        assert(concat_all(Seq::<Seq<char>>::empty()) == Seq::<char>::empty());
        assert(concat_all(xs.push(x)) =~= x);
        assert(concat_all(xs) + x =~= x);
    } else {
        lemma_concat_all_push(xs.skip(1), x);
        assert(xs.push(x).skip(1) =~~= xs.skip(1).push(x));
        assert(xs.push(x)[0] == xs[0]);
        assert(concat_all(xs.push(x)) == xs[0] + concat_all(xs.skip(1).push(x)));
        assert(concat_all(xs.push(x)) =~= concat_all(xs) + x);
    }
}

/// A group key occurs among the keys iff some entry carries it.
pub proof fn lemma_keys_of_contains(es: Seq<EntryView>, k: (Seq<char>, bool, Seq<OptPairView>))
    ensures
        keys_of(es).contains(k) <==> exists|j: int|
            0 <= j < es.len() && entry_key(#[trigger] es[j]) == k,
    decreases es.len(),
{
    if es.len() == 0 {
    } else {
        lemma_keys_of_contains(es.drop_last(), k);
        assert(forall|j: int| 0 <= j < es.len() - 1 ==> es.drop_last()[j] == (#[trigger] es[j]));
        let r = keys_of(es.drop_last());
        if entry_key(es.last()) == k {
            assert(entry_key(es[es.len() - 1]) == k);
            if !r.contains(k) {
                assert(r.push(k)[r.len() as int] == k);
                assert(keys_of(es).contains(k));
            }
        } else {
            if keys_of(es).contains(k) && !r.contains(k) {
                let idx = choose|idx: int| 0 <= idx < keys_of(es).len() && keys_of(es)[idx] == k;
                assert(r.push(entry_key(es.last()))[idx] == k);
                assert(idx < r.len());
                assert(r[idx] == k);
                assert(r.contains(k));
            }
            if r.contains(k) && !keys_of(es).contains(k) {
                let idx = choose|idx: int| 0 <= idx < r.len() && r[idx] == k;
                assert(keys_of(es)[idx] == k);
                assert(keys_of(es).contains(k));
            }
            if exists|j: int| 0 <= j < es.len() && entry_key(#[trigger] es[j]) == k {
                let j = choose|j: int| 0 <= j < es.len() && entry_key(#[trigger] es[j]) == k;
                assert(j < es.len() - 1);
                assert(entry_key(es.drop_last()[j]) == k);
            }
        }
    }
}

pub proof fn lemma_keys_of_push(es: Seq<EntryView>, e: EntryView)
    ensures
        keys_of(es.push(e)) == if keys_of(es).contains(entry_key(e)) {
            keys_of(es)
        } else {
            keys_of(es).push(entry_key(e))
        },
{
    assert(es.push(e).drop_last() =~~= es);
    assert(es.push(e).last() == e);
    assert(keys_of(es.push(e).drop_last()) == keys_of(es));
}

/// The representative of `k` is the first entry that carries it.
pub proof fn lemma_rep_of_first(
    es: Seq<EntryView>,
    k: (Seq<char>, bool, Seq<OptPairView>),
    j0: int,
)
    requires
        0 <= j0 < es.len(),
        entry_key(es[j0]) == k,
        forall|j: int| 0 <= j < j0 ==> entry_key(#[trigger] es[j]) != k,
    ensures
        rep_of(es, k) == es[j0],
    decreases j0,
{
    if j0 == 0 {
    } else {
        assert(entry_key(es[0]) != k);
        assert(forall|j: int| 0 <= j < j0 - 1 ==> es.skip(1)[j] == (#[trigger] es[j + 1]));
        assert(es.skip(1)[j0 - 1] == es[j0]);
        lemma_rep_of_first(es.skip(1), k, j0 - 1);
    }
}

/// One rendered paragraph: the shared fields from its first entry, the
/// suites of the whole group after `Suites:`, each with a space behind it.
pub open spec fn para_render_of(rep: EntryView, suites: Seq<Seq<char>>) -> Seq<char> {
    "Types: "@ + (if rep.source {
        "deb-src"@
    } else {
        "deb"@
    }) + seq!['\n'] + "URIs: "@ + rep.url + seq!['\n'] + "Suites: "@ + concat_all(
        suites.map_values(|x: Seq<char>| x + seq![' ']),
    ) + seq!['\n'] + "Components: "@ + text::join_with(rep.components, seq![' ']) + seq!['\n'] + (
    if rep.trusted {
        "Trusted: yes\n"@
    } else {
        Seq::empty()
    }) + (match rep.signed_by {
        Some(sv) => "Signed-By:"@ + sig_render(sv) + seq!['\n'],
        None => Seq::empty(),
    }) + concat_all(
        rep.options.map_values(
            |p: OptPairView| p.0 + ": "@ + text::join_with(p.1, seq![' ']) + seq!['\n'],
        ),
    )
}

/// The whole rendering: one paragraph per distinct group key, each written
/// once, in first-encounter order.
pub open spec fn deb822_render_of(es: Seq<EntryView>) -> Seq<char> {
    concat_all(
        keys_of(es).map_values(
            |k: (Seq<char>, bool, Seq<OptPairView>)|
                para_render_of(rep_of(es, k), suites_of(es, k)),
        ),
    )
}

/// Whether two entries fall into the same paragraph group.
fn entry_key_eq(a: &SourceEntry, b: &SourceEntry) -> (r: bool)
    ensures
        r == (entry_key(a@) == entry_key(b@)),
{
    let r = text::str_eq(a.url.as_str(), b.url.as_str()) && a.source == b.source && opts_eq(
        &a.options,
        &b.options,
    );
    proof {
        if r {
            assert(entry_key(a@) =~~= entry_key(b@));
        } else {
            assert(entry_key(a@) != entry_key(b@));
        }
    }
    r
}

/// Renders one paragraph from its representative entry and its suites.
fn render_para(rep: &SourceEntry, suites: &Vec<String>) -> (r: String)
    ensures
        r@ == para_render_of(rep@, suites.deep_view()),
{
    let mut r = String::from_str("Types: ");
    if rep.source {
        r.append("deb-src");
    } else {
        r.append("deb");
    }
    r.append("\n");
    r.append("URIs: ");
    r.append(rep.url.as_str());
    r.append("\n");
    r.append("Suites: ");
    let ghost sv = suites.deep_view();
    let ghost before_suites = r@;
    let mut i: usize = 0;
    proof {
        reveal_strlit("\n");
        assert(sv.take(0).map_values(|x: Seq<char>| x + seq![' ']) =~~= Seq::<Seq<char>>::empty());
        assert(r@ =~= before_suites + concat_all(
            sv.take(0).map_values(|x: Seq<char>| x + seq![' ']),
        ));
    }
    while i < suites.len()
        invariant
            i <= suites@.len(),
            suites.deep_view() == sv,
            r@ == before_suites + concat_all(
                sv.take(i as int).map_values(|x: Seq<char>| x + seq![' ']),
            ),
        decreases suites@.len() - i,
    {
        r.append(suites[i].as_str());
        r.append(" ");
        proof {
            reveal_strlit(" ");
            assert(" "@ =~= seq![' ']);
            let mapped = sv.take(i as int).map_values(|x: Seq<char>| x + seq![' ']);
            assert(sv.take(i + 1).map_values(|x: Seq<char>| x + seq![' ']) =~~= mapped.push(
                sv[i as int] + seq![' '],
            ));
            lemma_concat_all_push(mapped, sv[i as int] + seq![' ']);
            assert(r@ =~= before_suites + concat_all(
                sv.take(i + 1).map_values(|x: Seq<char>| x + seq![' ']),
            ));
        }
        i = i + 1;
    }
    proof {
        assert(sv.take(sv.len() as int) =~~= sv);
    }
    r.append("\n");
    r.append("Components: ");
    let comps = text::join(&rep.components, " ");
    r.append(comps.as_str());
    r.append("\n");
    if rep.trusted {
        r.append("Trusted: yes\n");
    }
    match &rep.signed_by {
        Some(sig) => {
            r.append("Signed-By:");
            let rendered = sig.render();
            r.append(rendered.as_str());
            r.append("\n");
        },
        None => {},
    }
    proof {
        reveal_strlit(" ");
        assert(" "@ =~= seq![' ']);
    }
    let ghost before_opts = r@;
    let ghost ov = rep.options.deep_view();
    let mut oi: usize = 0;
    proof {
        assert(ov.take(0).map_values(
            |p: OptPairView| p.0 + ": "@ + text::join_with(p.1, seq![' ']) + seq!['\n'],
        ) =~~= Seq::<Seq<char>>::empty());
        assert(r@ =~= before_opts + concat_all(ov.take(0).map_values(
            |p: OptPairView| p.0 + ": "@ + text::join_with(p.1, seq![' ']) + seq!['\n'],
        )));
    }
    while oi < rep.options.len()
        invariant
            oi <= rep.options@.len(),
            rep.options.deep_view() == ov,
            r@ == before_opts + concat_all(
                ov.take(oi as int).map_values(
                    |p: OptPairView| p.0 + ": "@ + text::join_with(p.1, seq![' ']) + seq!['\n'],
                ),
            ),
        decreases rep.options@.len() - oi,
    {
        r.append(rep.options[oi].0.as_str());
        r.append(": ");
        let vals = text::join(&rep.options[oi].1, " ");
        r.append(vals.as_str());
        r.append("\n");
        proof {
            reveal_strlit(" ");
            reveal_strlit("\n");
            assert(" "@ =~= seq![' ']);
            assert("\n"@ =~= seq!['\n']);
            let mapped = ov.take(oi as int).map_values(
                |p: OptPairView| p.0 + ": "@ + text::join_with(p.1, seq![' ']) + seq!['\n'],
            );
            assert(ov.take(oi + 1).map_values(
                |p: OptPairView| p.0 + ": "@ + text::join_with(p.1, seq![' ']) + seq!['\n'],
            ) =~~= mapped.push(
                ov[oi as int].0 + ": "@ + text::join_with(ov[oi as int].1, seq![' '])
                    + seq!['\n'],
            ));
            lemma_concat_all_push(
                mapped,
                ov[oi as int].0 + ": "@ + text::join_with(ov[oi as int].1, seq![' '])
                    + seq!['\n'],
            );
            assert(r@ =~= before_opts + concat_all(ov.take(oi + 1).map_values(
                |p: OptPairView| p.0 + ": "@ + text::join_with(p.1, seq![' ']) + seq!['\n'],
            )));
        }
        oi = oi + 1;
    }
    proof {
        reveal_strlit("\n");
        assert("\n"@ =~= seq!['\n']);
        assert(ov.take(ov.len() as int) =~~= ov);
        assert(r@ =~= para_render_of(rep@, sv));
    }
    r
}

impl PartialEq for SourceListDeb822 {
    fn eq(&self, other: &Self) -> (r: bool) {
        if self.entries.len() != other.entries.len() {
            proof {
                assert(self@.len() != other@.len());
            }
            return false;
        }
        let mut i: usize = 0;
        while i < self.entries.len()
            invariant
                i <= self.entries@.len(),
                self.entries@.len() == other.entries@.len(),
                forall|k: int| 0 <= k < i ==> self@[k] == other@[k],
            decreases self.entries@.len() - i,
        {
            if !(self.entries[i] == other.entries[i]) {
                proof {
                    assert(self@[i as int] != other@[i as int]);
                }
                return false;
            }
            proof {
                assert(self@[i as int] == other@[i as int]);
            }
            i = i + 1;
        }
        proof {
            assert(self@ =~~= other@);
        }
        true
    }
}

impl vstd::std_specs::cmp::PartialEqSpecImpl for SourceListDeb822 {
    open spec fn obeys_eq_spec() -> bool {
        true
    }

    open spec fn eq_spec(&self, other: &Self) -> bool {
        self@ == other@
    }
}

impl SourceListDeb822 {
    /// Renders the entries back into deb822 paragraphs.  Entries sharing
    /// URL, kind and generic options are coalesced into one paragraph, in
    /// first-encounter order, the suites of the whole group listed together.
    pub fn render(&self) -> (r: String)
        ensures
            r@ == deb822_render_of(self@),
    {
        let ghost esv = self@;
        let mut reps: Vec<usize> = Vec::new();
        let mut i: usize = 0;
        proof {
            assert(esv.take(0) =~~= Seq::<EntryView>::empty());
            assert(keys_of(esv.take(0)) =~~= Seq::<(Seq<char>, bool, Seq<OptPairView>)>::empty());
        }
        while i < self.entries.len()
            invariant
                i <= self.entries@.len(),
                self@ == esv,
                esv.len() == self.entries@.len(),
                reps@.len() == keys_of(esv.take(i as int)).len(),
                forall|g: int|
                    0 <= g < reps@.len() ==> (#[trigger] reps@[g]) < i && entry_key(
                        esv[reps@[g] as int],
                    ) == keys_of(esv.take(i as int))[g],
                forall|g: int, j2: int|
                    0 <= g < reps@.len() && 0 <= j2 < reps@[g] ==> entry_key(#[trigger] esv[j2])
                        != entry_key(esv[#[trigger] reps@[g] as int]),
            decreases self.entries@.len() - i,
        {
            let ghost keysv = keys_of(esv.take(i as int));
            let mut found = false;
            let mut g: usize = 0;
            while g < reps.len()
                invariant_except_break
                    !found,
                invariant
                    g <= reps@.len(),
                    self@ == esv,
                    i < self.entries@.len(),
                    esv.len() == self.entries@.len(),
                    forall|h: int| 0 <= h < reps@.len() ==> (#[trigger] reps@[h]) < i,
                    !found ==> forall|h: int|
                        0 <= h < g ==> entry_key(esv[#[trigger] reps@[h] as int]) != entry_key(
                            esv[i as int],
                        ),
                ensures
                    found ==> exists|h: int|
                        0 <= h < reps@.len() && entry_key(esv[#[trigger] reps@[h] as int])
                            == entry_key(esv[i as int]),
                    !found ==> forall|h: int|
                        0 <= h < reps@.len() ==> entry_key(esv[#[trigger] reps@[h] as int])
                            != entry_key(esv[i as int]),
                decreases reps@.len() - g,
            {
                if entry_key_eq(&self.entries[reps[g]], &self.entries[i]) {
                    found = true;
                    proof {
                        assert(entry_key(esv[reps@[g as int] as int]) == entry_key(
                            esv[i as int],
                        ));
                    }
                    break ;
                }
                g = g + 1;
            }
            proof {
                assert(esv.take(i + 1) =~~= esv.take(i as int).push(esv[i as int]));
                lemma_keys_of_push(esv.take(i as int), esv[i as int]);
                assert(forall|j: int| 0 <= j < i ==> esv.take(i as int)[j] == (#[trigger] esv[j]));
                if found {
                    let h = choose|h: int|
                        0 <= h < reps@.len() && entry_key(esv[#[trigger] reps@[h] as int])
                            == entry_key(esv[i as int]);
                    assert(keysv[h] == entry_key(esv[i as int]));
                    assert(keysv.contains(entry_key(esv[i as int])));
                } else {
                    assert(!keysv.contains(entry_key(esv[i as int]))) by {
                        if keysv.contains(entry_key(esv[i as int])) {
                            let idx = choose|idx: int|
                                0 <= idx < keysv.len() && keysv[idx] == entry_key(esv[i as int]);
                            assert(entry_key(esv[reps@[idx] as int]) == entry_key(esv[i as int]));
                        }
                    }
                    lemma_keys_of_contains(esv.take(i as int), entry_key(esv[i as int]));
                }
            }
            if !found {
                let ghost prevreps = reps@;
                reps.push(i);
                proof {
                    assert(reps@ == prevreps.push(i));
                    assert forall|g2: int, j2: int|
                        0 <= g2 < reps@.len() && 0 <= j2 < reps@[g2] implies entry_key(
                        #[trigger] esv[j2],
                    ) != entry_key(esv[#[trigger] reps@[g2] as int]) by {
                        if g2 < prevreps.len() {
                            assert(reps@[g2] == prevreps[g2]);
                        } else {
                            assert(reps@[g2] == i);
                            assert(!(exists|j: int|
                                0 <= j < esv.take(i as int).len() && entry_key(
                                    #[trigger] esv.take(i as int)[j],
                                ) == entry_key(esv[i as int])));
                            assert(esv.take(i as int)[j2] == esv[j2]);
                        }
                    }
                }
            }
            i = i + 1;
        }
        proof {
            assert(esv.take(esv.len() as int) =~~= esv);
        }
        let ghost keysv = keys_of(esv);
        let mut r = String::new();
        let mut gi: usize = 0;
        proof {
            assert(keysv.take(0).map_values(
                |k: (Seq<char>, bool, Seq<OptPairView>)|
                    para_render_of(rep_of(esv, k), suites_of(esv, k)),
            ) =~~= Seq::<Seq<char>>::empty());
        }
        while gi < reps.len()
            invariant
                gi <= reps@.len(),
                self@ == esv,
                esv.len() == self.entries@.len(),
                keysv == keys_of(esv),
                reps@.len() == keysv.len(),
                forall|g: int|
                    0 <= g < reps@.len() ==> (#[trigger] reps@[g]) < esv.len() && entry_key(
                        esv[reps@[g] as int],
                    ) == keysv[g],
                forall|g: int, j2: int|
                    0 <= g < reps@.len() && 0 <= j2 < reps@[g] ==> entry_key(#[trigger] esv[j2])
                        != entry_key(esv[#[trigger] reps@[g] as int]),
                r@ == concat_all(
                    keysv.take(gi as int).map_values(
                        |k: (Seq<char>, bool, Seq<OptPairView>)|
                            para_render_of(rep_of(esv, k), suites_of(esv, k)),
                    ),
                ),
            decreases reps@.len() - gi,
        {
            let ri = reps[gi];
            let ghost kg = keysv[gi as int];
            let mut suites: Vec<String> = Vec::new();
            let mut t: usize = 0;
            proof {
                assert(esv.skip(0) =~~= esv);
                assert(suites.deep_view() + suites_of(esv.skip(0), kg) =~~= suites_of(esv, kg));
            }
            while t < self.entries.len()
                invariant
                    t <= self.entries@.len(),
                    self@ == esv,
                    esv.len() == self.entries@.len(),
                    ri < esv.len(),
                    kg == entry_key(esv[ri as int]),
                    suites.deep_view() + suites_of(esv.skip(t as int), kg) =~~= suites_of(
                        esv,
                        kg,
                    ),
                decreases self.entries@.len() - t,
            {
                let ghost prev = suites.deep_view();
                proof {
                    assert(esv.skip(t as int)[0] == esv[t as int]);
                    assert(esv.skip(t as int).skip(1) =~~= esv.skip(t + 1));
                }
                if entry_key_eq(&self.entries[t], &self.entries[ri]) {
                    suites.push(String::from_str(self.entries[t].suite.as_str()));
                    proof {
                        assert(suites.deep_view() =~~= prev.push(esv[t as int].suite));
                        let rest = suites_of(esv.skip(t + 1), kg);
                        assert(prev + (seq![esv[t as int].suite] + rest) =~~= suites.deep_view()
                            + rest);
                    }
                }
                t = t + 1;
            }
            proof {
                assert(esv.skip(self.entries@.len() as int) =~~= Seq::<EntryView>::empty());
                assert(suites.deep_view() + Seq::<Seq<char>>::empty() =~~= suites.deep_view());
                assert(suites.deep_view() =~~= suites_of(esv, kg));
            }
            let para = render_para(&self.entries[ri], &suites);
            r.append(para.as_str());
            proof {
                assert forall|j: int| 0 <= j < ri implies entry_key(#[trigger] esv[j]) != kg by {}
                lemma_rep_of_first(esv, kg, ri as int);
                assert(para@ == para_render_of(rep_of(esv, kg), suites_of(esv, kg)));
                let mapf = |k: (Seq<char>, bool, Seq<OptPairView>)|
                    para_render_of(rep_of(esv, k), suites_of(esv, k));
                let mapped = keysv.take(gi as int).map_values(mapf);
                assert(keysv.take(gi + 1).map_values(mapf) =~~= mapped.push(mapf(kg)));
                lemma_concat_all_push(mapped, mapf(kg));
                assert(r@ =~= concat_all(keysv.take(gi + 1).map_values(mapf)));
            }
            gi = gi + 1;
        }
        proof {
            assert(keysv.take(keysv.len() as int) =~~= keysv);
        }
        r
    }
}

} // verus!
