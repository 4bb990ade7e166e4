//! One line of a classic sources list: an entry, a comment kept verbatim, or
//! an empty line.

use vstd::prelude::*;
use crate::errors::SourceError;
use crate::errors::SourceErrorView;
use crate::errors::SourcesListError;
use crate::errors::SourcesListErrorView;
use crate::source_entry::EntryView;
use crate::source_entry::SourceEntry;
use crate::source_entry::entry_parse_of;
use crate::source_entry::entry_render;
use crate::text;

verus! {

/// Mathematical model of a [`SourceLine`].
pub enum LineView {
    Comment(Seq<char>),
    Empty,
    Entry(EntryView),
}

/// A line from an apt source list.  Lines that hold no entry are preserved
/// verbatim so that a file can be rewritten without losing them.
#[derive(Debug, Clone)]
pub enum SourceLine {
    /// A line that carries no entry, kept as read.
    Comment(String),
    /// A line of nothing but whitespace.
    Empty,
    /// A source entry.
    Entry(SourceEntry),
}

impl View for SourceLine {
    type V = LineView;

    open spec fn view(&self) -> LineView {
        match self {
            SourceLine::Comment(c) => LineView::Comment(c@),
            SourceLine::Empty => LineView::Empty,
            SourceLine::Entry(e) => LineView::Entry(e@),
        }
    }
}

impl DeepView for SourceLine {
    type V = LineView;

    open spec fn deep_view(&self) -> LineView {
        self.view()
    }
}

/// A line view that the one-line renderer can take back: any entry in it is
/// tagged for the one-line format.
pub open spec fn line_wf(l: LineView) -> bool {
    match l {
        LineView::Entry(e) => !e.is_deb822,
        _ => true,
    }
}

/// Classifying one line.  A line of whitespace is empty; a line whose
/// trimmed text starts with `# ` and parses as a complete entry after that
/// prefix is that entry, disabled; any other line starting with `#`, and a
/// `# `-prefixed line whose rest does not parse, is an opaque comment, kept
/// verbatim; everything else must parse as an entry.
pub open spec fn line_parse_of(s: Seq<char>) -> Result<LineView, SourceErrorView> {
    let t = text::trim_of(s);
    if t.len() == 0 {
        Ok(LineView::Empty)
    } else if t[0] == '#' {
        if text::is_prefix("# "@, t) {
            match entry_parse_of(t.skip(2)) {
                Ok(e) => Ok(LineView::Entry(EntryView { enabled: false, ..e })),
                Err(_) => Ok(LineView::Comment(s)),
            }
        } else {
            Ok(LineView::Comment(s))
        }
    } else {
        match entry_parse_of(t) {
            Ok(e) => Ok(LineView::Entry(e)),
            Err(er) => Err(er),
        }
    }
}

/// The text of one line: comments verbatim, empty lines empty, entries
/// through the one-line entry renderer.
pub open spec fn line_render(l: LineView) -> Seq<char> {
    match l {
        LineView::Comment(c) => c,
        LineView::Empty => Seq::empty(),
        LineView::Entry(e) => entry_render(e),
    }
}

impl PartialEq for SourceLine {
    fn eq(&self, other: &Self) -> (r: bool) {
        let r = match (self, other) {
            (SourceLine::Comment(a), SourceLine::Comment(b)) => text::str_eq(
                a.as_str(),
                b.as_str(),
            ),
            (SourceLine::Empty, SourceLine::Empty) => true,
            (SourceLine::Entry(a), SourceLine::Entry(b)) => *a == *b,
            _ => false,
        };
        proof {
            if r {
                assert(self@ =~= other@);
            } else {
                assert(self@ != other@);
            }
        }
        r
    }
}

impl vstd::std_specs::cmp::PartialEqSpecImpl for SourceLine {
    open spec fn obeys_eq_spec() -> bool {
        true
    }

    open spec fn eq_spec(&self, other: &Self) -> bool {
        self@ == other@
    }
}

impl SourceLine {
    /// Copies the line.
    pub fn duplicate(&self) -> (r: SourceLine)
        ensures
            r@ == self@,
    {
        match self {
            SourceLine::Comment(c) => SourceLine::Comment(String::from_str(c.as_str())),
            SourceLine::Empty => SourceLine::Empty,
            SourceLine::Entry(e) => SourceLine::Entry(e.duplicate()),
        }
    }

    /// Classifies one line of a sources list, as `line_parse_of` describes.
    pub fn parse(line: &str) -> (r: Result<SourceLine, SourceError>)
        ensures
            match r {
                Ok(l) => line_parse_of(line@) == Ok::<LineView, SourceErrorView>(l@) && line_wf(
                    l@,
                ),
                Err(er) => line_parse_of(line@) == Err::<LineView, SourceErrorView>(er@),
            },
    {
        let t = text::trim(line);
        let tlen: usize = t.as_str().unicode_len();
        if tlen == 0 {
            return Ok(SourceLine::Empty);
        }
        if t.as_str().get_char(0) == '#' {
            if text::starts_with(t.as_str(), "# ") {
                proof {
                    reveal_strlit("# ");
                }
                let sub = t.as_str().substring_char(2, tlen);
                proof {
                    assert(sub@ =~= text::trim_of(line@).skip(2));
                }
                match SourceEntry::parse(sub) {
                    Ok(e) => {
                        let mut e2 = e;
                        e2.enabled = false;
                        proof {
                            let ev = entry_parse_of(text::trim_of(line@).skip(2))->Ok_0;
                            assert(e2@ =~= (EntryView { enabled: false, ..ev }));
                            assert(!e2@.is_deb822) by {
                                crate::source_entry::lemma_entry_parse_line_format(
                                    text::trim_of(line@).skip(2),
                                );
                            }
                        }
                        Ok(SourceLine::Entry(e2))
                    },
                    Err(_) => Ok(SourceLine::Comment(String::from_str(line))),
                }
            } else {
                Ok(SourceLine::Comment(String::from_str(line)))
            }
        } else {
            match SourceEntry::parse(t.as_str()) {
                Ok(e) => {
                    proof {
                        assert(!e@.is_deb822) by {
                            crate::source_entry::lemma_entry_parse_line_format(
                                text::trim_of(line@),
                            );
                        }
                    }
                    Ok(SourceLine::Entry(e))
                },
                Err(er) => Err(er),
            }
        }
    }

    /// Renders the line back to text.
    pub fn render(&self) -> (r: String)
        requires
            line_wf(self@),
        ensures
            r@ == line_render(self@),
    {
        match self {
            SourceLine::Comment(c) => String::from_str(c.as_str()),
            SourceLine::Empty => String::new(),
            SourceLine::Entry(e) => e.render(),
        }
    }
}

/// Parsing a whole line-style file from its line texts, 0-based: the first
/// line that fails gives its index and cause.
pub open spec fn lines_parse_from(ls: Seq<Seq<char>>, idx: int) -> Result<
    Seq<LineView>,
    SourcesListErrorView,
>
    decreases ls.len(),
{
    if ls.len() == 0 {
        Ok(Seq::empty())
    } else {
        match line_parse_of(ls[0]) {
            Err(e) => Err(SourcesListErrorView::BadLine { line: idx, why: e }),
            Ok(l) => match lines_parse_from(ls.skip(1), idx + 1) {
                Ok(r) => Ok(seq![l] + r),
                Err(e) => Err(e),
            },
        }
    }
}

/// Parsing a whole line-style file from its text.
pub open spec fn lines_parse_of(s: Seq<char>) -> Result<Seq<LineView>, SourcesListErrorView> {
    lines_parse_from(text::lines_of(s), 0)
}

/// All entries of a parsed line file are tagged for the one-line format.
pub open spec fn lines_wf(ls: Seq<LineView>) -> bool {
    forall|i: int| 0 <= i < ls.len() ==> line_wf(#[trigger] ls[i])
}

/// Parses every line of a line-style file, surfacing the first failure with
/// its 0-based line index.
pub fn parse_lines(s: &str) -> (r: Result<Vec<SourceLine>, SourcesListError>)
    ensures
        match r {
            Ok(v) => lines_parse_of(s@) == Ok::<Seq<LineView>, SourcesListErrorView>(
                v.deep_view(),
            ) && lines_wf(v.deep_view()),
            Err(e) => lines_parse_of(s@) == Err::<Seq<LineView>, SourcesListErrorView>(e@),
        },
{
    let raw = text::split_lines(s);
    let ghost lv = text::lines_of(s@);
    let mut out: Vec<SourceLine> = Vec::new();
    let mut i: usize = 0;
    proof {
        assert(lv.skip(0) =~~= lv);
    }
    while i < raw.len()
        invariant
            i <= raw@.len(),
            raw.deep_view() == lv,
            lv == text::lines_of(s@),
            out.deep_view().len() == i,
            lines_wf(out.deep_view()),
            lines_parse_from(lv, 0) == (match lines_parse_from(lv.skip(i as int), i as int) {
                Ok(rest) => Ok::<Seq<LineView>, SourcesListErrorView>(out.deep_view() + rest),
                Err(e) => Err::<Seq<LineView>, SourcesListErrorView>(e),
            }),
        decreases raw@.len() - i,
    {
        let ghost prev = out.deep_view();
        match SourceLine::parse(raw[i].as_str()) {
            Ok(l) => {
                out.push(l);
                proof {
                    let rest = lv.skip(i as int);
                    assert(rest[0] == lv[i as int]);
                    assert(rest.skip(1) =~~= lv.skip(i + 1));
                    assert(out.deep_view() =~~= prev.push(l@));
                    assert forall|j: int| 0 <= j < out.deep_view().len() implies line_wf(
                        out.deep_view()[j],
                    ) by {
                        if j < i {
                            assert(out.deep_view()[j] == prev[j]);
                            assert(line_wf(prev[j]));
                        }
                    }
                    let cont = lines_parse_from(lv.skip(i + 1), i + 1);
                    if cont is Ok {
                        let r2 = cont->Ok_0;
                        assert(prev + (seq![l@] + r2) =~= out.deep_view() + r2);
                    }
                    assert(lines_parse_from(lv, 0) == (match lines_parse_from(
                        lv.skip(i + 1),
                        i + 1,
                    ) {
                        Ok(rest2) => Ok::<Seq<LineView>, SourcesListErrorView>(out.deep_view()
                            + rest2),
                        Err(e) => Err::<Seq<LineView>, SourcesListErrorView>(e),
                    }));
                }
                i = i + 1;
            },
            Err(why) => {
                let ghost rest = lv.skip(i as int);
                proof {
                    assert(rest[0] == lv[i as int]);
                    assert(line_parse_of(rest[0]) == Err::<LineView, SourceErrorView>(why@));
                    assert(lines_parse_from(rest, i as int) == Err::<
                        Seq<LineView>,
                        SourcesListErrorView,
                    >(SourcesListErrorView::BadLine { line: i as int, why: why@ }));
                }
                return Err(SourcesListError::BadLine { line: i, why });
            },
        }
    }
    proof {
        assert(lv.skip(i as int) =~~= Seq::<Seq<char>>::empty());
        assert(out.deep_view() + Seq::<LineView>::empty() =~= out.deep_view());
    }
    Ok(out)
}

/// The text of a line-style file: every line's rendering followed by a
/// newline.
pub open spec fn lines_render(ls: Seq<LineView>) -> Seq<char>
    decreases ls.len(),
{
    if ls.len() == 0 {
        Seq::empty()
    } else {
        line_render(ls[0]) + seq!['\n'] + lines_render(ls.skip(1))
    }
}

pub proof fn lemma_lines_render_push(ls: Seq<LineView>, l: LineView)
    ensures
        lines_render(ls.push(l)) == lines_render(ls) + line_render(l) + seq!['\n'],
    decreases ls.len(),
{
    if ls.len() == 0 {
        assert(ls.push(l)[0] == l);
        assert(ls.push(l).skip(1) =~~= Seq::<LineView>::empty());
        assert(lines_render(Seq::<LineView>::empty()) == Seq::<char>::empty());
        assert(lines_render(ls.push(l)) =~= line_render(l) + seq!['\n']);
        assert(lines_render(ls) + line_render(l) + seq!['\n'] =~= line_render(l) + seq!['\n']);
    } else {
        lemma_lines_render_push(ls.skip(1), l);
        assert(ls.push(l).skip(1) =~~= ls.skip(1).push(l));
        assert(ls.push(l)[0] == ls[0]);
        assert(lines_render(ls.push(l)) == line_render(ls[0]) + seq!['\n'] + lines_render(
            ls.skip(1).push(l),
        ));
        assert(lines_render(ls.push(l)) =~= lines_render(ls) + line_render(l) + seq!['\n']);
    }
}

/// Renders a whole line-style file: one line of text per parsed line.
pub fn render_lines(ls: &Vec<SourceLine>) -> (r: String)
    requires
        lines_wf(ls.deep_view()),
    ensures
        r@ == lines_render(ls.deep_view()),
{
    let mut r = String::new();
    let mut i: usize = 0;
    while i < ls.len()
        invariant
            i <= ls@.len(),
            lines_wf(ls.deep_view()),
            ls.deep_view().len() == ls@.len(),
            r@ == lines_render(ls.deep_view().take(i as int)),
        decreases ls@.len() - i,
    {
        let one = ls[i].render();
        r.append(one.as_str());
        r.append("\n");
        proof {
            reveal_strlit("\n");
            assert("\n"@ =~= seq!['\n']);
            assert(ls.deep_view().take(i + 1) =~~= ls.deep_view().take(i as int).push(
                ls.deep_view()[i as int],
            ));
            lemma_lines_render_push(ls.deep_view().take(i as int), ls.deep_view()[i as int]);
        }
        i = i + 1;
    }
    proof {
        assert(ls.deep_view().take(ls.deep_view().len() as int) =~~= ls.deep_view());
    }
    r
}

} // verus!
