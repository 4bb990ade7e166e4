//! The file model (one on-disk source list) and the aggregate over all of
//! them, with modified-file tracking.
//!
//! Nothing here touches the filesystem: parsing takes the file's text, and
//! the write-back operations hand the caller `(path, text)` pairs to write.
//! A caller that lets a write fail halfway must expect a truncated file on
//! disk; re-reading and [`SourcesList::reload`] is the way back to known
//! state.

use vstd::prelude::*;
use crate::errors::SourceError;
use crate::errors::SourceErrorView;
use crate::errors::SourcesListError;
use crate::errors::SourcesListErrorView;
use crate::source_deb822::SourceListDeb822;
use crate::source_deb822::deb822_parse_of;
use crate::source_deb822::deb822_render_of;
use crate::source_deb822::deb822_wf;
use crate::source_entry::EntryView;
use crate::source_entry::SourceEntry;
use crate::source_line::LineView;
use crate::source_line::SourceLine;
use crate::source_line::lines_parse_of;
use crate::source_line::lines_render;
use crate::source_line::lines_wf;
use crate::text;

verus! {

/// Mathematical model of a [`SourceListType`].
#[verifier::ext_equal]
pub enum ListTypeView {
    Lines(Seq<LineView>),
    Deb822(Seq<EntryView>),
}

/// The two shapes a source-list file can take: ordered raw lines, or the
/// flat entry list a deb822 file expands into.
#[derive(Debug, Clone)]
pub enum SourceListType {
    /// A classic line-style list: every line kept, entries parsed.
    SourceLine(Vec<SourceLine>),
    /// A deb822-style list: the flat entries of its paragraphs.
    Deb822(SourceListDeb822),
}

impl View for SourceListType {
    type V = ListTypeView;

    open spec fn view(&self) -> ListTypeView {
        match self {
            SourceListType::SourceLine(ls) => ListTypeView::Lines(ls.deep_view()),
            SourceListType::Deb822(d) => ListTypeView::Deb822(d@),
        }
    }
}

/// Mathematical model of a [`SourcesList`].
#[verifier::ext_equal]
pub struct FileView {
    pub path: Seq<char>,
    pub entries: ListTypeView,
}

/// One source-list file: where it lives and what it holds.
#[derive(Debug, Clone)]
pub struct SourcesList {
    /// The path of the backing file.
    pub path: String,
    /// The parsed content.
    pub entries: SourceListType,
}

impl View for SourcesList {
    type V = FileView;

    open spec fn view(&self) -> FileView {
        FileView { path: self.path@, entries: self.entries@ }
    }
}

impl DeepView for SourcesList {
    type V = FileView;

    open spec fn deep_view(&self) -> FileView {
        self.view()
    }
}

/// Entries of either shape can be rendered back: line entries are tagged for
/// the line format, deb822 entries for theirs.
pub open spec fn list_type_wf(t: ListTypeView) -> bool {
    match t {
        ListTypeView::Lines(ls) => lines_wf(ls),
        ListTypeView::Deb822(es) => deb822_wf(es),
    }
}

/// A well-formed file: its content can be rendered.
pub open spec fn file_wf(f: FileView) -> bool {
    list_type_wf(f.entries)
}

/// Parsing a file's text: the deb822 codec is attempted first; on any
/// failure the line codec decides, and its first bad line is the error.
pub open spec fn file_parse_of(s: Seq<char>) -> Result<ListTypeView, SourcesListErrorView> {
    match deb822_parse_of(s) {
        Ok(es) => Ok(ListTypeView::Deb822(es)),
        Err(_) => match lines_parse_of(s) {
            Ok(ls) => Ok(ListTypeView::Lines(ls)),
            Err(e) => Err(e),
        },
    }
}

/// The text of a file: each shape through its own renderer.
pub open spec fn file_render_of(t: ListTypeView) -> Seq<char> {
    match t {
        ListTypeView::Lines(ls) => lines_render(ls),
        ListTypeView::Deb822(es) => deb822_render_of(es),
    }
}

/// The number of slots (lines, or deb822 entries) a file has.
pub open spec fn slot_count(t: ListTypeView) -> int {
    match t {
        ListTypeView::Lines(ls) => ls.len() as int,
        ListTypeView::Deb822(es) => es.len() as int,
    }
}

/// Whether the slot at `i` holds an entry whose URL is exactly `url`.
pub open spec fn slot_matches(t: ListTypeView, i: int, url: Seq<char>) -> bool {
    match t {
        ListTypeView::Lines(ls) => ls[i] matches LineView::Entry(e) && e.url == url,
        ListTypeView::Deb822(es) => es[i].url == url,
    }
}

/// The first slot holding an entry with the given URL, if any.
pub open spec fn slot_find(t: ListTypeView, url: Seq<char>) -> Option<int> {
    if exists|i: int| 0 <= i < slot_count(t) && slot_matches(t, i, url) {
        Some(
            choose|i: int|
                0 <= i < slot_count(t) && slot_matches(t, i, url) && forall|j: int|
                    0 <= j < i ==> !slot_matches(t, j, url),
        )
    } else {
        None
    }
}

/// The characterisation `slot_find` is chosen from holds of a first match.
pub proof fn lemma_slot_find_at(t: ListTypeView, url: Seq<char>, m: int)
    requires
        0 <= m <= slot_count(t),
        forall|j: int| 0 <= j < m ==> !slot_matches(t, j, url),
        m == slot_count(t) || slot_matches(t, m, url),
    ensures
        slot_find(t, url) == if m == slot_count(t) {
            None::<int>
        } else {
            Some(m)
        },
{
    if m == slot_count(t) {
        assert(forall|i: int| 0 <= i < slot_count(t) ==> !slot_matches(t, i, url));
    } else {
        assert(exists|i: int| 0 <= i < slot_count(t) && slot_matches(t, i, url));
        let w = choose|i: int|
            0 <= i < slot_count(t) && slot_matches(t, i, url) && forall|j: int|
                0 <= j < i ==> !slot_matches(t, j, url);
        if w < m {
            assert(!slot_matches(t, w, url));
        }
        if w > m {
            assert(!slot_matches(t, m, url));
        }
    }
}

/// Whether some slot of the file holds an entry with the given URL.
pub open spec fn file_has_url(f: FileView, url: Seq<char>) -> bool {
    exists|i: int| 0 <= i < slot_count(f.entries) && slot_matches(f.entries, i, url)
}

/// The matching slot indices from `i` on, in ascending order.
pub open spec fn slots_from(t: ListTypeView, url: Seq<char>, i: int) -> Seq<int>
    decreases slot_count(t) - i,
    when 0 <= i
{
    if i >= slot_count(t) {
        Seq::empty()
    } else if slot_matches(t, i, url) {
        seq![i] + slots_from(t, url, i + 1)
    } else {
        slots_from(t, url, i + 1)
    }
}

/// Every slot index holding an entry with the given URL, ascending.
pub open spec fn matching_slots(t: ListTypeView, url: Seq<char>) -> Seq<int> {
    slots_from(t, url, 0)
}

impl SourcesList {
    /// Parses one file's text, with an empty path: the deb822 codec first,
    /// the line codec on any deb822 failure.
    pub fn parse(data: &str) -> (r: Result<SourcesList, SourcesListError>)
        ensures
            match r {
                Ok(f) => file_parse_of(data@) == Ok::<ListTypeView, SourcesListErrorView>(
                    f@.entries,
                ) && f@.path =~= Seq::<char>::empty() && file_wf(f@),
                Err(e) => file_parse_of(data@) == Err::<ListTypeView, SourcesListErrorView>(e@),
            },
    {
        match SourceListDeb822::parse(data) {
            Ok(d) => Ok(SourcesList { path: String::new(), entries: SourceListType::Deb822(d) }),
            Err(_) => {
                match crate::source_line::parse_lines(data) {
                    Ok(ls) => Ok(
                        SourcesList { path: String::new(), entries: SourceListType::SourceLine(ls) },
                    ),
                    Err(e) => Err(e),
                }
            },
        }
    }

    /// The file's current text, through the renderer of its shape.
    pub fn to_text(&self) -> (r: String)
        requires
            file_wf(self@),
        ensures
            r@ == file_render_of(self@.entries),
    {
        match &self.entries {
            SourceListType::SourceLine(ls) => crate::source_line::render_lines(ls),
            SourceListType::Deb822(d) => d.render(),
        }
    }

    /// The first slot (line index, or deb822 entry index) holding an entry
    /// whose URL is exactly `entry`, if any.
    pub fn contains_entry(&self, entry: &str) -> (r: Option<usize>)
        ensures
            match r {
                Some(u) => ({
                    &&& (u as int) < slot_count(self@.entries)
                    &&& slot_find(self@.entries, entry@) == Some(u as int)
                    &&& slot_matches(self@.entries, u as int, entry@)
                    &&& forall|j: int| 0 <= j < u as int ==> !slot_matches(self@.entries, j, entry@)
                }),
                None => slot_find(self@.entries, entry@) == None::<int> && forall|j: int|
                    0 <= j < slot_count(self@.entries) ==> !slot_matches(self@.entries, j, entry@),
            },
    {
        let ghost t = self@.entries;
        match &self.entries {
            SourceListType::SourceLine(ls) => {
                let mut i: usize = 0;
                while i < ls.len()
                    invariant
                        i <= ls@.len(),
                        t == ListTypeView::Lines(ls.deep_view()),
                        t == self@.entries,
                        slot_count(t) == ls@.len(),
                        forall|j: int| 0 <= j < i ==> !slot_matches(t, j, entry@),
                    decreases ls@.len() - i,
                {
                    let hit = match &ls[i] {
                        SourceLine::Entry(e) => text::str_eq(e.url.as_str(), entry),
                        _ => false,
                    };
                    proof {
                        assert(hit == slot_matches(t, i as int, entry@));
                    }
                    if hit {
                        proof {
                            lemma_slot_find_at(t, entry@, i as int);
                        }
                        return Some(i);
                    }
                    i = i + 1;
                }
                proof {
                    lemma_slot_find_at(t, entry@, ls@.len() as int);
                }
                None
            },
            SourceListType::Deb822(d) => {
                let mut i: usize = 0;
                while i < d.entries.len()
                    invariant
                        i <= d.entries@.len(),
                        t == ListTypeView::Deb822(d.entries.deep_view()),
                        t == self@.entries,
                        slot_count(t) == d.entries@.len(),
                        forall|j: int| 0 <= j < i ==> !slot_matches(t, j, entry@),
                    decreases d.entries@.len() - i,
                {
                    let hit = text::str_eq(d.entries[i].url.as_str(), entry);
                    proof {
                        assert(hit == slot_matches(t, i as int, entry@));
                    }
                    if hit {
                        proof {
                            lemma_slot_find_at(t, entry@, i as int);
                        }
                        return Some(i);
                    }
                    i = i + 1;
                }
                proof {
                    lemma_slot_find_at(t, entry@, d.entries@.len() as int);
                }
                None
            },
        }
    }

    /// The slots of every entry whose URL is exactly `entry`, in ascending
    /// order: the handles through which matching entries are addressed.
    pub fn get_entries_mut(&self, entry: &str) -> (r: Vec<usize>)
        ensures
            r@.map_values(|u: usize| u as int) == matching_slots(self@.entries, entry@),
            forall|a: int| 0 <= a < r@.len() ==> ((#[trigger] r@[a]) as int) < slot_count(
                self@.entries,
            ),
    {
        let ghost t = self@.entries;
        let n: usize = match &self.entries {
            SourceListType::SourceLine(ls) => ls.len(),
            SourceListType::Deb822(d) => d.entries.len(),
        };
        proof {
            assert(n as int == slot_count(t));
        }
        let mut r: Vec<usize> = Vec::new();
        let mut i: usize = 0;
        proof {
            assert(r@.map_values(|u: usize| u as int) + slots_from(t, entry@, 0) =~= slots_from(
                t,
                entry@,
                0,
            ));
        }
        while i < n
            invariant
                i <= n,
                n as int == slot_count(t),
                t == self@.entries,
                forall|a: int| 0 <= a < r@.len() ==> ((#[trigger] r@[a]) as int) < slot_count(t),
                r@.map_values(|u: usize| u as int) + slots_from(t, entry@, i as int)
                    =~= matching_slots(t, entry@),
            decreases n - i,
        {
            let ghost prev = r@;
            let hit = match &self.entries {
                SourceListType::SourceLine(ls) => match &ls[i] {
                    SourceLine::Entry(e) => text::str_eq(e.url.as_str(), entry),
                    _ => false,
                },
                SourceListType::Deb822(d) => text::str_eq(d.entries[i].url.as_str(), entry),
            };
            proof {
                assert(hit == slot_matches(t, i as int, entry@));
            }
            if hit {
                r.push(i);
                proof {
                    assert(r@.map_values(|u: usize| u as int) =~= prev.map_values(
                        |u: usize| u as int,
                    ).push(i as int));
                    assert(prev.map_values(|u: usize| u as int) + (seq![i as int] + slots_from(
                        t,
                        entry@,
                        i + 1,
                    )) =~= r@.map_values(|u: usize| u as int) + slots_from(t, entry@, i + 1));
                }
            }
            i = i + 1;
        }
        proof {
            assert(slots_from(t, entry@, n as int) =~= Seq::<int>::empty());
            assert(r@.map_values(|u: usize| u as int) + Seq::<int>::empty() =~= r@.map_values(
                |u: usize| u as int,
            ));
        }
        r
    }

    /// Whether the file holds at least one entry; comments and empty lines
    /// do not count.
    pub fn is_active(&self) -> (r: bool)
        ensures
            r == match self@.entries {
                ListTypeView::Lines(ls) => exists|i: int|
                    0 <= i < ls.len() && (#[trigger] ls[i]) matches LineView::Entry(_),
                ListTypeView::Deb822(es) => es.len() > 0,
            },
    {
        let ghost t = self@.entries;
        match &self.entries {
            SourceListType::SourceLine(ls) => {
                let ghost lsv = ls.deep_view();
                let mut i: usize = 0;
                while i < ls.len()
                    invariant
                        i <= ls@.len(),
                        lsv == ls.deep_view(),
                        self@.entries == ListTypeView::Lines(lsv),
                        forall|j: int| 0 <= j < i ==> !((#[trigger] lsv[j]) matches LineView::Entry(_)),
                    decreases ls@.len() - i,
                {
                    let hit = match &ls[i] {
                        SourceLine::Entry(_) => true,
                        _ => false,
                    };
                    if hit {
                        proof {
                            assert(lsv[i as int] matches LineView::Entry(_));
                        }
                        return true;
                    }
                    i = i + 1;
                }
                false
            },
            SourceListType::Deb822(d) => d.entries.len() > 0,
        }
    }

    /// Re-parses the file from fresh text, keeping its path; any in-memory
    /// edits are discarded.  On a parse failure nothing changes.
    pub fn reload(&mut self, data: &str) -> (r: Result<(), SourcesListError>)
        ensures
            match r {
                Ok(()) => ({
                    &&& file_parse_of(data@) matches Ok(_)
                    &&& Ok::<ListTypeView, SourcesListErrorView>(final(self)@.entries)
                        == file_parse_of(data@)
                    &&& final(self)@.path == old(self)@.path
                    &&& file_wf(final(self)@)
                }),
                Err(e) => file_parse_of(data@) == Err::<ListTypeView, SourcesListErrorView>(e@)
                    && *final(self) == *old(self),
            },
    {
        match SourcesList::parse(data) {
            Ok(f) => {
                self.entries = f.entries;
                Ok(())
            },
            Err(e) => Err(e),
        }
    }
}

/// Mathematical model of a [`SourcesLists`].
#[verifier::ext_equal]
pub struct ListsView {
    pub files: Seq<FileView>,
    pub modified: Seq<usize>,
}

/// All apt source files together, with a record of which were modified in
/// memory and await a write-back.
#[derive(Debug, Clone)]
pub struct SourcesLists {
    /// Every loaded file, in load order.
    pub files: Vec<SourcesList>,
    /// Indices of the files that were modified, in first-marked order,
    /// without duplicates.
    pub modified: Vec<usize>,
}

impl View for SourcesLists {
    type V = ListsView;

    open spec fn view(&self) -> ListsView {
        ListsView { files: self.files.deep_view(), modified: self.modified@ }
    }
}

/// A well-formed aggregate: every file renderable, every mark a valid file
/// index, no mark repeated.
pub open spec fn lists_wf(v: ListsView) -> bool {
    &&& forall|i: int| 0 <= i < v.files.len() ==> file_wf(#[trigger] v.files[i])
    &&& forall|a: int| 0 <= a < v.modified.len() ==> (#[trigger] v.modified[a] as int)
        < v.files.len()
    &&& forall|a: int, b: int| 0 <= a < b < v.modified.len() ==> v.modified[a] != v.modified[b]
}

/// Parsing a batch of `(path, text)` pairs, aborting at the first failure.
pub open spec fn lists_parse_of(pairs: Seq<(Seq<char>, Seq<char>)>) -> Result<
    Seq<FileView>,
    SourcesListErrorView,
>
    decreases pairs.len(),
{
    if pairs.len() == 0 {
        Ok(Seq::empty())
    } else {
        match file_parse_of(pairs[0].1) {
            Err(e) => Err(e),
            Ok(t) => match lists_parse_of(pairs.skip(1)) {
                Err(e) => Err(e),
                Ok(r) => Ok(seq![FileView { path: pairs[0].0, entries: t }] + r),
            },
        }
    }
}

/// A mark list extended by `i`, unless it already holds it.
pub open spec fn add_mark(m: Seq<usize>, i: usize) -> Seq<usize> {
    if m.contains(i) {
        m
    } else {
        m.push(i)
    }
}

/// A mark list whose well-formed prefix was extended only by ascending,
/// fresh, in-range indices is well-formed throughout.
proof fn lemma_marks_extended(pre_m: Seq<usize>, cur: Seq<usize>, nfiles: int)
    requires
        cur.len() >= pre_m.len(),
        cur.take(pre_m.len() as int) == pre_m,
        forall|a: int| 0 <= a < pre_m.len() ==> ((#[trigger] pre_m[a]) as int) < nfiles,
        forall|a: int, b: int| 0 <= a < b < pre_m.len() ==> pre_m[a] != pre_m[b],
        forall|a: int, b: int| pre_m.len() <= a < b < cur.len() ==> cur[a] < cur[b],
        forall|a: int|
            pre_m.len() <= a < cur.len() ==> ((#[trigger] cur[a]) as int) < nfiles
                && !pre_m.contains(cur[a]),
    ensures
        forall|a: int| 0 <= a < cur.len() ==> ((#[trigger] cur[a]) as int) < nfiles,
        forall|a: int, b: int| 0 <= a < b < cur.len() ==> cur[a] != cur[b],
{
    let n = pre_m.len() as int;
    assert forall|a: int| 0 <= a < cur.len() implies ((#[trigger] cur[a]) as int) < nfiles by {
        if a < n {
            assert(cur.take(n)[a] == cur[a]);
            assert(cur[a] == pre_m[a]);
        }
    }
    assert forall|a: int, b: int| 0 <= a < b < cur.len() implies cur[a] != cur[b] by {
        if b < n {
            assert(cur.take(n)[a] == cur[a]);
            assert(cur.take(n)[b] == cur[b]);
            assert(cur[a] == pre_m[a]);
            assert(cur[b] == pre_m[b]);
        } else if a < n {
            assert(cur.take(n)[a] == cur[a]);
            assert(cur[a] == pre_m[a]);
            assert(pre_m.contains(pre_m[a]));
        } else {
        }
    }
}

fn add_modified(modified: &mut Vec<usize>, list: usize)
    ensures
        final(modified)@ == add_mark(old(modified)@, list),
{
    let mut i: usize = 0;
    while i < modified.len()
        invariant
            i <= modified@.len(),
            *modified == *old(modified),
            forall|a: int| 0 <= a < i ==> modified@[a] != list,
        decreases modified@.len() - i,
    {
        if modified[i] == list {
            proof {
                assert(old(modified)@.contains(list));
            }
            return;
        }
        i = i + 1;
    }
    proof {
        assert(!old(modified)@.contains(list));
    }
    modified.push(list);
}

/// An entry with its enabled flag set when its URL is exactly `url`.
pub open spec fn mod_entry(e: EntryView, url: Seq<char>, en: bool) -> EntryView {
    if e.url == url {
        EntryView { enabled: en, ..e }
    } else {
        e
    }
}

/// A line with its entry's enabled flag set when the URL matches.
pub open spec fn mod_line(l: LineView, url: Seq<char>, en: bool) -> LineView {
    match l {
        LineView::Entry(e) => LineView::Entry(mod_entry(e, url, en)),
        _ => l,
    }
}

/// A file with the enabled flag set on every entry whose URL matches.
pub open spec fn mod_file(f: FileView, url: Seq<char>, en: bool) -> FileView {
    FileView {
        path: f.path,
        entries: match f.entries {
            ListTypeView::Lines(ls) => ListTypeView::Lines(
                Seq::new(ls.len(), |i: int| mod_line(ls[i], url, en)),
            ),
            ListTypeView::Deb822(es) => ListTypeView::Deb822(
                Seq::new(es.len(), |i: int| mod_entry(es[i], url, en)),
            ),
        },
    }
}

/// Sets the enabled flag on every matching entry of one file; reports
/// whether any matched.
fn modify_file_exec(f: &SourcesList, url: &str, en: bool) -> (r: (SourcesList, bool))
    ensures
        r.0@ == mod_file(f@, url@, en),
        r.1 == file_has_url(f@, url@),
        file_wf(f@) ==> file_wf(r.0@),
{
    let ghost t = f@.entries;
    match &f.entries {
        SourceListType::SourceLine(ls) => {
            let ghost lsv = ls.deep_view();
            let mut newls: Vec<SourceLine> = Vec::new();
            let mut found = false;
            let mut j: usize = 0;
            while j < ls.len()
                invariant
                    j <= ls@.len(),
                    lsv == ls.deep_view(),
                    t == ListTypeView::Lines(lsv),
                    newls.deep_view().len() == j,
                    forall|k: int| 0 <= k < j ==> newls.deep_view()[k] == mod_line(
                        lsv[k],
                        url@,
                        en,
                    ),
                    found == exists|k: int| 0 <= k < j && slot_matches(t, k, url@),
                decreases ls@.len() - j,
            {
                let ghost prev = newls.deep_view();
                match &ls[j] {
                    SourceLine::Entry(e) => {
                        let mut e2 = e.duplicate();
                        if text::str_eq(e2.url.as_str(), url) {
                            e2.enabled = en;
                            found = true;
                            proof {
                                assert(slot_matches(t, j as int, url@));
                                assert(e2@ =~= mod_entry(e@, url@, en));
                            }
                        } else {
                            proof {
                                assert(!slot_matches(t, j as int, url@));
                                assert(e2@ =~= mod_entry(e@, url@, en));
                            }
                        }
                        newls.push(SourceLine::Entry(e2));
                    },
                    SourceLine::Comment(c) => {
                        newls.push(SourceLine::Comment(String::from_str(c.as_str())));
                        proof {
                            assert(!slot_matches(t, j as int, url@));
                        }
                    },
                    SourceLine::Empty => {
                        newls.push(SourceLine::Empty);
                        proof {
                            assert(!slot_matches(t, j as int, url@));
                        }
                    },
                }
                proof {
                    assert forall|k: int| 0 <= k < j + 1 implies newls.deep_view()[k] == mod_line(
                        lsv[k],
                        url@,
                        en,
                    ) by {
                        if k < j {
                            assert(newls.deep_view()[k] == prev[k]);
                        }
                    }
                }
                j = j + 1;
            }
            let out = SourcesList {
                path: String::from_str(f.path.as_str()),
                entries: SourceListType::SourceLine(newls),
            };
            proof {
                let target = Seq::new(lsv.len(), |i: int| mod_line(lsv[i], url@, en));
                assert(newls.deep_view() =~~= target);
                assert(out@.entries == ListTypeView::Lines(target));
                assert(mod_file(f@, url@, en).entries == ListTypeView::Lines(target));
                assert(out@ =~= mod_file(f@, url@, en));
            }
            (out, found)
        },
        SourceListType::Deb822(d) => {
            let ghost esv = d.entries.deep_view();
            let mut newes: Vec<SourceEntry> = Vec::new();
            let mut found = false;
            let mut j: usize = 0;
            while j < d.entries.len()
                invariant
                    j <= d.entries@.len(),
                    esv == d.entries.deep_view(),
                    t == ListTypeView::Deb822(esv),
                    newes.deep_view().len() == j,
                    forall|k: int| 0 <= k < j ==> newes.deep_view()[k] == mod_entry(
                        esv[k],
                        url@,
                        en,
                    ),
                    found == exists|k: int| 0 <= k < j && slot_matches(t, k, url@),
                decreases d.entries@.len() - j,
            {
                let ghost prev = newes.deep_view();
                let mut e2 = d.entries[j].duplicate();
                if text::str_eq(e2.url.as_str(), url) {
                    e2.enabled = en;
                    found = true;
                    proof {
                        assert(slot_matches(t, j as int, url@));
                        assert(e2@ =~= mod_entry(esv[j as int], url@, en));
                    }
                } else {
                    proof {
                        assert(!slot_matches(t, j as int, url@));
                        assert(e2@ =~= mod_entry(esv[j as int], url@, en));
                    }
                }
                newes.push(e2);
                proof {
                    assert forall|k: int| 0 <= k < j + 1 implies newes.deep_view()[k] == mod_entry(
                        esv[k],
                        url@,
                        en,
                    ) by {
                        if k < j {
                            assert(newes.deep_view()[k] == prev[k]);
                        }
                    }
                }
                j = j + 1;
            }
            let out = SourcesList {
                path: String::from_str(f.path.as_str()),
                entries: SourceListType::Deb822(SourceListDeb822 { entries: newes }),
            };
            proof {
                let target = Seq::new(esv.len(), |i: int| mod_entry(esv[i], url@, en));
                assert(newes.deep_view() =~~= target);
                assert(out@.entries == ListTypeView::Deb822(target));
                assert(mod_file(f@, url@, en).entries == ListTypeView::Deb822(target));
                assert(out@ =~= mod_file(f@, url@, en));
            }
            (out, found)
        },
    }
}

impl SourcesLists {
    /// Builds the aggregate from already-read files, each a `(path, text)`
    /// pair; the first file that fails to parse aborts the whole batch.
    pub fn new_from_paths(files: Vec<(String, String)>) -> (r: Result<
        SourcesLists,
        SourcesListError,
    >)
        ensures
            match r {
                Ok(lists) => ({
                    &&& lists_parse_of(files.deep_view()) matches Ok(_)
                    &&& Ok::<Seq<FileView>, SourcesListErrorView>(lists@.files) == lists_parse_of(
                        files.deep_view(),
                    )
                    &&& lists@.modified =~= Seq::<usize>::empty()
                    &&& lists_wf(lists@)
                }),
                Err(e) => lists_parse_of(files.deep_view()) == Err::<
                    Seq<FileView>,
                    SourcesListErrorView,
                >(e@),
            },
    {
        let ghost pv = files.deep_view();
        let mut out: Vec<SourcesList> = Vec::new();
        let mut i: usize = 0;
        proof {
            assert(pv.skip(0) =~~= pv);
        }
        while i < files.len()
            invariant
                i <= files@.len(),
                files.deep_view() == pv,
                out.deep_view().len() == i,
                forall|k: int| 0 <= k < i ==> file_wf(#[trigger] out.deep_view()[k]),
                lists_parse_of(pv) == (match lists_parse_of(pv.skip(i as int)) {
                    Ok(rest) => Ok::<Seq<FileView>, SourcesListErrorView>(out.deep_view() + rest),
                    Err(e) => Err::<Seq<FileView>, SourcesListErrorView>(e),
                }),
            decreases files@.len() - i,
        {
            let ghost prev = out.deep_view();
            proof {
                assert(pv.skip(i as int)[0] == pv[i as int]);
                assert(pv.skip(i as int).skip(1) =~~= pv.skip(i + 1));
            }
            match SourcesList::parse(files[i].1.as_str()) {
                Err(e) => {
                    proof {
                        assert(lists_parse_of(pv.skip(i as int)) == Err::<
                            Seq<FileView>,
                            SourcesListErrorView,
                        >(e@));
                    }
                    return Err(e);
                },
                Ok(f) => {
                    let named = SourcesList {
                        path: String::from_str(files[i].0.as_str()),
                        entries: f.entries,
                    };
                    proof {
                        assert(named@ =~= (FileView { path: pv[i as int].0, entries: named@.entries }));
                    }
                    out.push(named);
                    proof {
                        assert(out.deep_view() =~~= prev.push(
                            FileView { path: pv[i as int].0, entries: out.deep_view()[i as int].entries },
                        ));
                        let cont = lists_parse_of(pv.skip(i + 1));
                        if cont is Ok {
                            let r2 = cont->Ok_0;
                            assert(prev + (seq![out.deep_view()[i as int]] + r2) =~~= out.deep_view() + r2);
                        }
                    }
                    i = i + 1;
                },
            }
        }
        proof {
            assert(pv.skip(i as int) =~~= Seq::<(Seq<char>, Seq<char>)>::empty());
            assert(out.deep_view() + Seq::<FileView>::empty() =~~= out.deep_view());
        }
        let lists = SourcesLists { files: out, modified: Vec::new() };
        Ok(lists)
    }

    /// Enables or disables every entry whose URL is exactly `repo`, across
    /// every file; each file with a match is marked modified, in file order.
    /// Returns whether any entry matched.
    pub fn repo_modify(&mut self, repo: &str, enabled: bool) -> (found: bool)
        requires
            lists_wf(old(self)@),
        ensures
            lists_wf(final(self)@),
            final(self)@.files.len() == old(self)@.files.len(),
            forall|i: int|
                0 <= i < old(self)@.files.len() ==> final(self)@.files[i] == mod_file(
                    #[trigger] old(self)@.files[i],
                    repo@,
                    enabled,
                ),
            found == exists|i: int|
                0 <= i < old(self)@.files.len() && file_has_url(
                    #[trigger] old(self)@.files[i],
                    repo@,
                ),
            final(self)@.modified.len() >= old(self)@.modified.len(),
            final(self)@.modified.take(old(self)@.modified.len() as int) == old(self)@.modified,
            forall|a: int, b: int|
                old(self)@.modified.len() <= a < b < final(self)@.modified.len()
                    ==> final(self)@.modified[a] < final(self)@.modified[b],
            forall|a: int|
                old(self)@.modified.len() <= a < final(self)@.modified.len() ==> ({
                    let fi = #[trigger] final(self)@.modified[a];
                    &&& (fi as int) < old(self)@.files.len()
                    &&& file_has_url(old(self)@.files[fi as int], repo@)
                    &&& !old(self)@.modified.contains(fi)
                }),
            forall|fi: usize|
                (fi as int) < old(self)@.files.len() && file_has_url(
                    #[trigger] old(self)@.files[fi as int],
                    repo@,
                ) && !old(self)@.modified.contains(fi) ==> final(self)@.modified.contains(fi),
    {
        let ghost pre = old(self)@;
        let mut found = false;
        let mut i: usize = 0;
        while i < self.files.len()
            invariant
                pre == old(self)@,
                i <= pre.files.len(),
                self.files@.len() == pre.files.len(),
                lists_wf(pre),
                forall|k: int|
                    i <= k < pre.files.len() ==> self.files@[k] == old(self).files@[k],
                forall|k: int|
                    0 <= k < i ==> self.files.deep_view()[k] == mod_file(
                        #[trigger] pre.files[k],
                        repo@,
                        enabled,
                    ),
                forall|k: int|
                    0 <= k < pre.files.len() ==> file_wf(#[trigger] self.files.deep_view()[k]),
                found == exists|k: int|
                    0 <= k < i && file_has_url(#[trigger] pre.files[k], repo@),
                self.modified@.len() >= pre.modified.len(),
                self.modified@.take(pre.modified.len() as int) == pre.modified,
                forall|a: int, b: int|
                    pre.modified.len() <= a < b < self.modified@.len() ==> self.modified@[a]
                        < self.modified@[b],
                forall|a: int|
                    pre.modified.len() <= a < self.modified@.len() ==> ({
                        let fi = #[trigger] self.modified@[a];
                        &&& (fi as int) < i
                        &&& file_has_url(pre.files[fi as int], repo@)
                        &&& !pre.modified.contains(fi)
                    }),
                forall|fi: usize|
                    (fi as int) < i && file_has_url(#[trigger] pre.files[fi as int], repo@)
                        && !pre.modified.contains(fi) ==> self.modified@.contains(fi),
            decreases pre.files.len() - i,
        {
            let ghost mpre = self.modified@;
            let pair = modify_file_exec(&self.files[i], repo, enabled);
            let newf = pair.0;
            let had = pair.1;
            proof {
                assert(self.files@[i as int] == old(self).files@[i as int]);
                assert(self.files@[i as int].deep_view() == old(self).files@[
                    i as int].deep_view());
                assert(self.files.deep_view()[i as int] == self.files@[i as int].deep_view());
                assert(pre.files[i as int] == old(self).files@[i as int].deep_view());
                assert(self.files.deep_view()[i as int] == pre.files[i as int]);
            }
            self.files.set(i, newf);
            proof {
                assert forall|k: int|
                    0 <= k < pre.files.len() implies file_wf(
                    #[trigger] self.files.deep_view()[k],
                ) by {
                    if k == i {
                        assert(self.files.deep_view()[k] == mod_file(
                            pre.files[i as int],
                            repo@,
                            enabled,
                        ));
                    } else if k < i {
                        assert(self.files.deep_view()[k] == mod_file(
                            pre.files[k],
                            repo@,
                            enabled,
                        ));
                    } else {
                        assert(self.files@[k] == old(self).files@[k]);
                        assert(self.files.deep_view()[k] == self.files@[k].deep_view());
                        assert(pre.files[k] == old(self).files@[k].deep_view());
                        assert(self.files.deep_view()[k] == pre.files[k]);
                    }
                }
            }
            if had {
                found = true;
                add_modified(&mut self.modified, i);
                proof {
                    if mpre.contains(i) {
                        assert(self.modified@ == mpre);
                        let a = choose|a: int| 0 <= a < mpre.len() && mpre[a] == i;
                        if a < pre.modified.len() {
                            assert(pre.modified[a] == i);
                            assert(pre.modified.contains(i));
                        } else {
                            assert((mpre[a] as int) < i);
                        }
                        assert(self.modified@.contains(i));
                    } else {
                        assert(self.modified@ == mpre.push(i));
                        assert(self.modified@[self.modified@.len() - 1] == i);
                        assert(self.modified@.contains(i));
                        assert(self.modified@.take(pre.modified.len() as int) =~= mpre.take(
                            pre.modified.len() as int,
                        ));
                    }
                    assert forall|fi: usize|
                        (fi as int) < i + 1 && file_has_url(
                            #[trigger] pre.files[fi as int],
                            repo@,
                        ) && !pre.modified.contains(fi) implies self.modified@.contains(fi) by {
                        if (fi as int) < i {
                            assert(mpre.contains(fi));
                            let a = choose|a: int| 0 <= a < mpre.len() && mpre[a] == fi;
                            assert(self.modified@[a] == fi);
                        }
                    }
                }
            } else {
                proof {
                    assert(!file_has_url(pre.files[i as int], repo@));
                    assert forall|fi: usize|
                        (fi as int) < i + 1 && file_has_url(
                            #[trigger] pre.files[fi as int],
                            repo@,
                        ) && !pre.modified.contains(fi) implies self.modified@.contains(fi) by {}
                }
            }
            proof {
                assert forall|k: int| 0 <= k < i + 1 implies self.files.deep_view()[k] == mod_file(
                    #[trigger] pre.files[k],
                    repo@,
                    enabled,
                ) by {}
            }
            i = i + 1;
        }
        proof {
            assert(final(self)@.modified.take(pre.modified.len() as int) == pre.modified);
            lemma_marks_extended(pre.modified, self.modified@, pre.files.len() as int);
        }
        found
    }

    /// Every entry of every file, flattened in file order, both enabled and
    /// disabled ones: callers filter on `enabled` themselves.
    pub fn entries(&self) -> (r: Vec<SourceEntry>)
        ensures
            r.deep_view() == all_entries(self@.files),
    {
        let ghost fv = self@.files;
        let mut r: Vec<SourceEntry> = Vec::new();
        let mut i: usize = 0;
        proof {
            assert(fv.take(0) =~~= Seq::<FileView>::empty());
            assert(r.deep_view() =~~= all_entries(fv.take(0)));
        }
        while i < self.files.len()
            invariant
                i <= self.files@.len(),
                self@.files == fv,
                fv.len() == self.files@.len(),
                r.deep_view() =~~= all_entries(fv.take(i as int)),
            decreases self.files@.len() - i,
        {
            let ghost prev = r.deep_view();
            let mut part = file_entries_exec(&self.files[i]);
            let ghost partv = part.deep_view();
            r.append(&mut part);
            proof {
                assert(self.files@[i as int].deep_view() == fv[i as int]);
                assert(partv == file_entries(fv[i as int]));
                assert(r.deep_view() =~~= prev + partv);
                assert(fv.take(i + 1) =~~= fv.take(i as int).push(fv[i as int]));
                lemma_all_entries_push(fv.take(i as int), fv[i as int]);
                assert(r.deep_view() =~~= all_entries(fv.take(i + 1)));
            }
            i = i + 1;
        }
        proof {
            assert(fv.take(fv.len() as int) =~~= fv);
        }
        r
    }

    /// Rewrites, in memory only, the suite of every entry whose suite starts
    /// with `from_suite`, substituting `from_suite` by `to_suite` inside it;
    /// each file with a match is marked modified.  Nothing is written out
    /// until a later write-back.
    pub fn dist_replace(&mut self, from_suite: &str, to_suite: &str)
        requires
            lists_wf(old(self)@),
        ensures
            lists_wf(final(self)@),
            final(self)@.files.len() == old(self)@.files.len(),
            forall|i: int|
                0 <= i < old(self)@.files.len() ==> final(self)@.files[i] == retarget_file(
                    #[trigger] old(self)@.files[i],
                    from_suite@,
                    to_suite@,
                ),
            final(self)@.modified.len() >= old(self)@.modified.len(),
            final(self)@.modified.take(old(self)@.modified.len() as int) == old(self)@.modified,
            forall|a: int, b: int|
                old(self)@.modified.len() <= a < b < final(self)@.modified.len()
                    ==> final(self)@.modified[a] < final(self)@.modified[b],
            forall|a: int|
                old(self)@.modified.len() <= a < final(self)@.modified.len() ==> ({
                    let fi = #[trigger] final(self)@.modified[a];
                    &&& (fi as int) < old(self)@.files.len()
                    &&& file_has_suite(old(self)@.files[fi as int], from_suite@)
                    &&& !old(self)@.modified.contains(fi)
                }),
            forall|fi: usize|
                (fi as int) < old(self)@.files.len() && file_has_suite(
                    #[trigger] old(self)@.files[fi as int],
                    from_suite@,
                ) && !old(self)@.modified.contains(fi) ==> final(self)@.modified.contains(fi),
    {
        let ghost pre = old(self)@;
        let mut i: usize = 0;
        while i < self.files.len()
            invariant
                pre == old(self)@,
                i <= pre.files.len(),
                self.files@.len() == pre.files.len(),
                lists_wf(pre),
                forall|k: int|
                    i <= k < pre.files.len() ==> self.files@[k] == old(self).files@[k],
                forall|k: int|
                    0 <= k < i ==> self.files.deep_view()[k] == retarget_file(
                        #[trigger] pre.files[k],
                        from_suite@,
                        to_suite@,
                    ),
                forall|k: int|
                    0 <= k < pre.files.len() ==> file_wf(#[trigger] self.files.deep_view()[k]),
                self.modified@.len() >= pre.modified.len(),
                self.modified@.take(pre.modified.len() as int) == pre.modified,
                forall|a: int, b: int|
                    pre.modified.len() <= a < b < self.modified@.len() ==> self.modified@[a]
                        < self.modified@[b],
                forall|a: int|
                    pre.modified.len() <= a < self.modified@.len() ==> ({
                        let fi = #[trigger] self.modified@[a];
                        &&& (fi as int) < i
                        &&& file_has_suite(pre.files[fi as int], from_suite@)
                        &&& !pre.modified.contains(fi)
                    }),
                forall|fi: usize|
                    (fi as int) < i && file_has_suite(#[trigger] pre.files[fi as int], from_suite@)
                        && !pre.modified.contains(fi) ==> self.modified@.contains(fi),
            decreases pre.files.len() - i,
        {
            let ghost mpre = self.modified@;
            let pair = retarget_file_exec(&self.files[i], from_suite, to_suite);
            let newf = pair.0;
            let had = pair.1;
            proof {
                assert(self.files@[i as int] == old(self).files@[i as int]);
                assert(self.files@[i as int].deep_view() == old(self).files@[
                    i as int].deep_view());
                assert(self.files.deep_view()[i as int] == self.files@[i as int].deep_view());
                assert(pre.files[i as int] == old(self).files@[i as int].deep_view());
                assert(self.files.deep_view()[i as int] == pre.files[i as int]);
            }
            self.files.set(i, newf);
            proof {
                assert forall|k: int|
                    0 <= k < pre.files.len() implies file_wf(
                    #[trigger] self.files.deep_view()[k],
                ) by {
                    if k == i {
                        assert(self.files.deep_view()[k] == retarget_file(
                            pre.files[i as int],
                            from_suite@,
                            to_suite@,
                        ));
                    } else if k < i {
                        assert(self.files.deep_view()[k] == retarget_file(
                            pre.files[k],
                            from_suite@,
                            to_suite@,
                        ));
                    } else {
                        assert(self.files@[k] == old(self).files@[k]);
                        assert(self.files.deep_view()[k] == self.files@[k].deep_view());
                        assert(pre.files[k] == old(self).files@[k].deep_view());
                        assert(self.files.deep_view()[k] == pre.files[k]);
                    }
                }
            }
            if had {
                add_modified(&mut self.modified, i);
                proof {
                    if mpre.contains(i) {
                        assert(self.modified@ == mpre);
                        let a = choose|a: int| 0 <= a < mpre.len() && mpre[a] == i;
                        if a < pre.modified.len() {
                            assert(pre.modified[a] == i);
                            assert(pre.modified.contains(i));
                        } else {
                            assert((mpre[a] as int) < i);
                        }
                        assert(self.modified@.contains(i));
                    } else {
                        assert(self.modified@ == mpre.push(i));
                        assert(self.modified@[self.modified@.len() - 1] == i);
                        assert(self.modified@.contains(i));
                        assert(self.modified@.take(pre.modified.len() as int) =~= mpre.take(
                            pre.modified.len() as int,
                        ));
                    }
                    assert forall|fi: usize|
                        (fi as int) < i + 1 && file_has_suite(
                            #[trigger] pre.files[fi as int],
                            from_suite@,
                        ) && !pre.modified.contains(fi) implies self.modified@.contains(fi) by {
                        if (fi as int) < i {
                            assert(mpre.contains(fi));
                            let a = choose|a: int| 0 <= a < mpre.len() && mpre[a] == fi;
                            assert(self.modified@[a] == fi);
                        }
                    }
                }
            } else {
                proof {
                    assert(!file_has_suite(pre.files[i as int], from_suite@));
                    assert forall|fi: usize|
                        (fi as int) < i + 1 && file_has_suite(
                            #[trigger] pre.files[fi as int],
                            from_suite@,
                        ) && !pre.modified.contains(fi) implies self.modified@.contains(fi) by {}
                }
            }
            i = i + 1;
        }
        proof {
            assert(final(self)@.modified.take(pre.modified.len() as int) == pre.modified);
            lemma_marks_extended(pre.modified, self.modified@, pre.files.len() as int);
        }
    }

    /// Inserts an entry: in the first file at `path` it replaces the entry
    /// sharing its URL or is appended, taking the file's format tag; when no
    /// file has that path, a fresh line-style file holding just this entry
    /// is added.  The affected file is marked modified.  Never fails.
    pub fn insert_entry(&mut self, path: &str, entry: SourceEntry) -> (r: Result<
        (),
        SourceError,
    >)
        requires
            lists_wf(old(self)@),
        ensures
            lists_wf(final(self)@),
            r is Ok,
            match find_path(old(self)@.files, path@) {
                Some(fi) => ({
                    &&& final(self)@.files == old(self)@.files.update(
                        fi,
                        insert_into_file(old(self)@.files[fi], entry@),
                    )
                    &&& final(self)@.modified == add_mark(old(self)@.modified, fi as usize)
                }),
                None => ({
                    &&& final(self)@.files == old(self)@.files.push(
                        FileView {
                            path: path@,
                            entries: ListTypeView::Lines(
                                seq![LineView::Entry(coerce_tag(entry@, false))],
                            ),
                        },
                    )
                    &&& final(self)@.modified == add_mark(
                        old(self)@.modified,
                        old(self)@.files.len() as usize,
                    )
                }),
            },
    {
        let ghost pre = old(self)@;
        let mut fi: usize = 0;
        while fi < self.files.len()
            invariant
                pre == old(self)@,
                fi <= pre.files.len(),
                *self == *old(self),
                self.files@.len() == pre.files.len(),
                lists_wf(pre),
                forall|j: int| 0 <= j < fi ==> (#[trigger] pre.files[j]).path != path@,
            decreases pre.files.len() - fi,
        {
            if text::str_eq(self.files[fi].path.as_str(), path) {
                proof {
                    assert(pre.files[fi as int].path == path@);
                    lemma_find_path_at(pre.files, path@, fi as int);
                }
                let ghost oldf = pre.files[fi as int];
                let found = self.files[fi].contains_entry(entry.url.as_str());
                let newf: SourcesList = match &self.files[fi].entries {
                    SourceListType::SourceLine(ls) => {
                        let mut nl = clone_lines(ls);
                        let mut e2 = entry;
                        e2.is_deb822 = false;
                        proof {
                            assert(e2@ =~= coerce_tag(entry@, false));
                        }
                        match found {
                            Some(pos) => {
                                let ghost prenl = nl.deep_view();
                                nl.set(pos, SourceLine::Entry(e2));
                                proof {
                                    assert(nl.deep_view() =~~= prenl.update(
                                        pos as int,
                                        LineView::Entry(coerce_tag(entry@, false)),
                                    ));
                                }
                            },
                            None => {
                                let ghost prenl = nl.deep_view();
                                nl.push(SourceLine::Entry(e2));
                                proof {
                                    assert(nl.deep_view() =~~= prenl.push(
                                        LineView::Entry(coerce_tag(entry@, false)),
                                    ));
                                }
                            },
                        }
                        SourcesList {
                            path: String::from_str(self.files[fi].path.as_str()),
                            entries: SourceListType::SourceLine(nl),
                        }
                    },
                    SourceListType::Deb822(d) => {
                        let mut ne = clone_entries(&d.entries);
                        let mut e2 = entry;
                        e2.is_deb822 = true;
                        proof {
                            assert(e2@ =~= coerce_tag(entry@, true));
                        }
                        match found {
                            Some(pos) => {
                                let ghost prene = ne.deep_view();
                                ne.set(pos, e2);
                                proof {
                                    assert(ne.deep_view() =~~= prene.update(
                                        pos as int,
                                        coerce_tag(entry@, true),
                                    ));
                                }
                            },
                            None => {
                                let ghost prene = ne.deep_view();
                                ne.push(e2);
                                proof {
                                    assert(ne.deep_view() =~~= prene.push(
                                        coerce_tag(entry@, true),
                                    ));
                                }
                            },
                        }
                        SourcesList {
                            path: String::from_str(self.files[fi].path.as_str()),
                            entries: SourceListType::Deb822(SourceListDeb822 { entries: ne }),
                        }
                    },
                };
                proof {
                    assert(newf@ =~= insert_into_file(oldf, entry@));
                    assert(file_wf(newf@)) by {
                        match newf@.entries {
                            ListTypeView::Lines(nls) => {
                                assert forall|k: int|
                                    0 <= k < nls.len() implies crate::source_line::line_wf(
                                    #[trigger] nls[k],
                                ) by {
                                    match oldf.entries {
                                        ListTypeView::Lines(ols) => {
                                            if k < ols.len() && nls[k] == ols[k] {
                                            }
                                        },
                                        _ => {},
                                    }
                                }
                            },
                            ListTypeView::Deb822(nes) => {
                                assert forall|k: int|
                                    0 <= k < nes.len() implies (#[trigger] nes[k]).is_deb822 by {
                                    match oldf.entries {
                                        ListTypeView::Deb822(oes) => {
                                            if k < oes.len() && nes[k] == oes[k] {
                                            }
                                        },
                                        _ => {},
                                    }
                                }
                            },
                        }
                    }
                }
                self.files.set(fi, newf);
                add_modified(&mut self.modified, fi);
                proof {
                    assert(final(self)@.files =~~= pre.files.update(
                        fi as int,
                        insert_into_file(oldf, entry@),
                    ));
                    assert(lists_wf(final(self)@)) by {
                        assert forall|k: int|
                            0 <= k < self.files.deep_view().len() implies file_wf(
                            #[trigger] self.files.deep_view()[k],
                        ) by {
                            if k != fi {
                                assert(self.files@[k] == old(self).files@[k]);
                                assert(self.files.deep_view()[k] == self.files@[k].deep_view());
                                assert(pre.files[k] == old(self).files@[k].deep_view());
                            }
                        }
                        if !pre.modified.contains(fi) {
                            assert(self.modified@ == pre.modified.push(fi));
                            assert forall|a: int, b: int|
                                0 <= a < b < self.modified@.len() implies self.modified@[a]
                                != self.modified@[b] by {
                                if b == self.modified@.len() - 1 {
                                    assert(self.modified@[a] == pre.modified[a]);
                                    assert(pre.modified.contains(pre.modified[a]));
                                }
                            }
                        }
                    }
                }
                return Ok(());
            }
            fi = fi + 1;
        }
        proof {
            lemma_find_path_at(pre.files, path@, pre.files.len() as int);
        }
        let mut e2 = entry;
        e2.is_deb822 = false;
        let mut fresh_lines: Vec<SourceLine> = Vec::new();
        fresh_lines.push(SourceLine::Entry(e2));
        let fresh = SourcesList {
            path: String::from_str(path),
            entries: SourceListType::SourceLine(fresh_lines),
        };
        let ghost oldn = self.files@.len();
        proof {
            assert(fresh@.entries =~~= ListTypeView::Lines(
                seq![LineView::Entry(coerce_tag(entry@, false))],
            ));
        }
        self.files.push(fresh);
        add_modified(&mut self.modified, self.files.len() - 1);
        proof {
            assert(final(self)@.files =~~= pre.files.push(
                FileView {
                    path: path@,
                    entries: ListTypeView::Lines(seq![LineView::Entry(coerce_tag(entry@, false))]),
                },
            ));
            assert(!pre.modified.contains(oldn as usize));
            assert(self.modified@ == pre.modified.push(oldn as usize));
            assert(lists_wf(final(self)@)) by {
                assert forall|k: int|
                    0 <= k < self.files.deep_view().len() implies file_wf(
                    #[trigger] self.files.deep_view()[k],
                ) by {
                    if k < oldn {
                        assert(self.files@[k] == old(self).files@[k]);
                        assert(self.files.deep_view()[k] == self.files@[k].deep_view());
                        assert(pre.files[k] == old(self).files@[k].deep_view());
                    }
                }
                assert forall|a: int, b: int|
                    0 <= a < b < self.modified@.len() implies self.modified@[a]
                    != self.modified@[b] by {
                    if b == self.modified@.len() - 1 {
                        assert(self.modified@[a] == pre.modified[a]);
                        assert(pre.modified.contains(pre.modified[a]));
                    }
                }
            }
        }
        Ok(())
    }

    /// Deletes the first entry with the given URL from each file that has
    /// one; every such file is marked modified.
    #[verifier::rlimit(80)]
    pub fn remove_entry(&mut self, repo: &str)
        requires
            lists_wf(old(self)@),
        ensures
            lists_wf(final(self)@),
            final(self)@.files.len() == old(self)@.files.len(),
            forall|i: int|
                0 <= i < old(self)@.files.len() ==> final(self)@.files[i] == (
                match slot_find((#[trigger] old(self)@.files[i]).entries, repo@) {
                    Some(p) => (FileView {
                        path: old(self)@.files[i].path,
                        entries: remove_slot(old(self)@.files[i].entries, p),
                    }),
                    None => old(self)@.files[i],
                }),
            final(self)@.modified.len() >= old(self)@.modified.len(),
            final(self)@.modified.take(old(self)@.modified.len() as int) == old(self)@.modified,
            forall|a: int, b: int|
                old(self)@.modified.len() <= a < b < final(self)@.modified.len()
                    ==> final(self)@.modified[a] < final(self)@.modified[b],
            forall|a: int|
                old(self)@.modified.len() <= a < final(self)@.modified.len() ==> ({
                    let fi = #[trigger] final(self)@.modified[a];
                    &&& (fi as int) < old(self)@.files.len()
                    &&& file_has_url(old(self)@.files[fi as int], repo@)
                    &&& !old(self)@.modified.contains(fi)
                }),
            forall|fi: usize|
                (fi as int) < old(self)@.files.len() && file_has_url(
                    #[trigger] old(self)@.files[fi as int],
                    repo@,
                ) && !old(self)@.modified.contains(fi) ==> final(self)@.modified.contains(fi),
    {
        let ghost pre = old(self)@;
        let mut i: usize = 0;
        while i < self.files.len()
            invariant
                pre == old(self)@,
                i <= pre.files.len(),
                self.files@.len() == pre.files.len(),
                lists_wf(pre),
                forall|k: int|
                    i <= k < pre.files.len() ==> self.files@[k] == old(self).files@[k],
                forall|k: int|
                    0 <= k < i ==> self.files.deep_view()[k] == (
                    match slot_find((#[trigger] pre.files[k]).entries, repo@) {
                        Some(p) => (FileView {
                            path: pre.files[k].path,
                            entries: remove_slot(pre.files[k].entries, p),
                        }),
                        None => pre.files[k],
                    }),
                forall|k: int|
                    0 <= k < pre.files.len() ==> file_wf(#[trigger] self.files.deep_view()[k]),
                self.modified@.len() >= pre.modified.len(),
                self.modified@.take(pre.modified.len() as int) == pre.modified,
                forall|a: int, b: int|
                    pre.modified.len() <= a < b < self.modified@.len() ==> self.modified@[a]
                        < self.modified@[b],
                forall|a: int|
                    pre.modified.len() <= a < self.modified@.len() ==> ({
                        let fi = #[trigger] self.modified@[a];
                        &&& (fi as int) < i
                        &&& file_has_url(pre.files[fi as int], repo@)
                        &&& !pre.modified.contains(fi)
                    }),
                forall|fi: usize|
                    (fi as int) < i && file_has_url(#[trigger] pre.files[fi as int], repo@)
                        && !pre.modified.contains(fi) ==> self.modified@.contains(fi),
            decreases pre.files.len() - i,
        {
            let ghost mpre = self.modified@;
            proof {
                assert(self.files@[i as int] == old(self).files@[i as int]);
                assert(self.files@[i as int].deep_view() == old(self).files@[
                    i as int].deep_view());
                assert(self.files.deep_view()[i as int] == self.files@[i as int].deep_view());
                assert(pre.files[i as int] == old(self).files@[i as int].deep_view());
                assert(self.files.deep_view()[i as int] == pre.files[i as int]);
            }
            match self.files[i].contains_entry(repo) {
                Some(pos) => {
                    proof {
                        assert(slot_matches(pre.files[i as int].entries, pos as int, repo@));
                        assert(file_has_url(pre.files[i as int], repo@));
                    }
                    let newf: SourcesList = match &self.files[i].entries {
                        SourceListType::SourceLine(ls) => {
                            let mut nl = clone_lines(ls);
                            let ghost prenl = nl.deep_view();
                            let ghost vb = nl@;
                            let removed = nl.remove(pos);
                            proof {
                                vb.remove_ensures(pos as int);
                                prenl.remove_ensures(pos as int);
                                assert(nl.deep_view() =~~= prenl.remove(pos as int));
                            }
                            SourcesList {
                                path: String::from_str(self.files[i].path.as_str()),
                                entries: SourceListType::SourceLine(nl),
                            }
                        },
                        SourceListType::Deb822(d) => {
                            let mut ne = clone_entries(&d.entries);
                            let ghost prene = ne.deep_view();
                            let ghost vb = ne@;
                            let removed = ne.remove(pos);
                            proof {
                                vb.remove_ensures(pos as int);
                                prene.remove_ensures(pos as int);
                                assert(ne.deep_view() =~~= prene.remove(pos as int));
                            }
                            SourcesList {
                                path: String::from_str(self.files[i].path.as_str()),
                                entries: SourceListType::Deb822(SourceListDeb822 { entries: ne }),
                            }
                        },
                    };
                    let ghost oldf = pre.files[i as int];
                    proof {
                        assert(newf@ =~= (FileView {
                            path: oldf.path,
                            entries: remove_slot(oldf.entries, pos as int),
                        }));
                        assert(file_wf(newf@)) by {
                            match newf@.entries {
                                ListTypeView::Lines(nls) => {
                                    let ols = (match oldf.entries {
                                        ListTypeView::Lines(x) => x,
                                        _ => nls,
                                    });
                                    ols.remove_ensures(pos as int);
                                    assert forall|k: int|
                                        0 <= k < nls.len() implies crate::source_line::line_wf(
                                        #[trigger] nls[k],
                                    ) by {
                                        if k < pos {
                                            assert(nls[k] == ols[k]);
                                        } else {
                                            assert(nls[k] == ols[k + 1]);
                                        }
                                    }
                                },
                                ListTypeView::Deb822(nes) => {
                                    let oes = (match oldf.entries {
                                        ListTypeView::Deb822(x) => x,
                                        _ => nes,
                                    });
                                    oes.remove_ensures(pos as int);
                                    assert forall|k: int|
                                        0 <= k < nes.len() implies (
                                        #[trigger] nes[k]).is_deb822 by {
                                        if k < pos {
                                            assert(nes[k] == oes[k]);
                                        } else {
                                            assert(nes[k] == oes[k + 1]);
                                        }
                                    }
                                },
                            }
                        }
                    }
                    let ghost fpre = self.files.deep_view();
                    self.files.set(i, newf);
                    add_modified(&mut self.modified, i);
                    proof {
                        if mpre.contains(i) {
                            assert(self.modified@ == mpre);
                            let a = choose|a: int| 0 <= a < mpre.len() && mpre[a] == i;
                            if a < pre.modified.len() {
                                assert(pre.modified[a] == i);
                                assert(pre.modified.contains(i));
                            } else {
                                assert((mpre[a] as int) < i);
                            }
                            assert(self.modified@.contains(i));
                        } else {
                            assert(self.modified@ == mpre.push(i));
                            assert(self.modified@[self.modified@.len() - 1] == i);
                            assert(self.modified@.contains(i));
                            assert(self.modified@.take(pre.modified.len() as int) =~= mpre.take(
                                pre.modified.len() as int,
                            ));
                        }
                        assert forall|fi2: usize|
                            (fi2 as int) < i + 1 && file_has_url(
                                #[trigger] pre.files[fi2 as int],
                                repo@,
                            ) && !pre.modified.contains(fi2) implies self.modified@.contains(
                            fi2,
                        ) by {
                            if (fi2 as int) < i {
                                assert(mpre.contains(fi2));
                                let a = choose|a: int| 0 <= a < mpre.len() && mpre[a] == fi2;
                                assert(self.modified@[a] == fi2);
                            }
                        }
                        assert forall|k: int|
                            0 <= k < pre.files.len() implies file_wf(
                            #[trigger] self.files.deep_view()[k],
                        ) by {
                            if k != i {
                                assert(self.files.deep_view()[k] == fpre[k]);
                                assert(file_wf(fpre[k]));
                            }
                        }
                    }
                },
                None => {
                    proof {
                        assert(!file_has_url(pre.files[i as int], repo@)) by {
                            if file_has_url(pre.files[i as int], repo@) {
                                let w = choose|w: int|
                                    0 <= w < slot_count(pre.files[i as int].entries)
                                        && slot_matches(pre.files[i as int].entries, w, repo@);
                                assert(slot_find(pre.files[i as int].entries, repo@) is None);
                            }
                        }
                        assert forall|fi2: usize|
                            (fi2 as int) < i + 1 && file_has_url(
                                #[trigger] pre.files[fi2 as int],
                                repo@,
                            ) && !pre.modified.contains(fi2) implies self.modified@.contains(
                            fi2,
                        ) by {}
                    }
                },
            }
            i = i + 1;
        }
        proof {
            assert(final(self)@.modified.take(pre.modified.len() as int) == pre.modified);
            lemma_marks_extended(pre.modified, self.modified@, pre.files.len() as int);
        }
    }

    /// The dist paths every upgradeable entry would have after moving from
    /// `from_suite` to `to_suite`: entries with an http URL whose suite
    /// starts with `from_suite`, in order.  Nothing is changed.
    pub fn dist_upgrade_paths(&self, from_suite: &str, to_suite: &str) -> (r: Vec<String>)
        ensures
            r.deep_view() == upgrade_paths_of(all_entries(self@.files), from_suite@, to_suite@),
    {
        let ents = self.entries();
        let ghost esv = all_entries(self@.files);
        let mut r: Vec<String> = Vec::new();
        let mut i: usize = 0;
        proof {
            assert(esv.skip(0) =~~= esv);
        }
        while i < ents.len()
            invariant
                i <= ents@.len(),
                ents.deep_view() == esv,
                r.deep_view() + upgrade_paths_of(esv.skip(i as int), from_suite@, to_suite@)
                    =~~= upgrade_paths_of(esv, from_suite@, to_suite@),
            decreases ents@.len() - i,
        {
            let ghost prev = r.deep_view();
            proof {
                assert(esv.skip(i as int)[0] == esv[i as int]);
                assert(esv.skip(i as int).skip(1) =~~= esv.skip(i + 1));
            }
            let http = text::starts_with(ents[i].url.as_str(), "http");
            let hits = text::starts_with(ents[i].suite.as_str(), from_suite);
            if http && hits {
                let mut e2 = ents[i].duplicate();
                e2.suite = text::replace(e2.suite.as_str(), from_suite, to_suite);
                let p = e2.dist_path();
                r.push(p);
                proof {
                    assert(e2@ =~= (EntryView {
                        suite: text::replace_of(esv[i as int].suite, from_suite@, to_suite@),
                        ..esv[i as int]
                    }));
                    let rest = upgrade_paths_of(esv.skip(i + 1), from_suite@, to_suite@);
                    assert(prev + (seq![crate::source_entry::dist_path_of(e2@)] + rest)
                        =~~= r.deep_view() + rest);
                }
            }
            i = i + 1;
        }
        proof {
            assert(esv.skip(ents@.len() as int) =~~= Seq::<EntryView>::empty());
            assert(r.deep_view() + Seq::<Seq<char>>::empty() =~~= r.deep_view());
        }
        r
    }

    /// Rewrites, in memory, the suite of every line-format entry that is
    /// upgradeable and not retained, and returns for every file — deb822
    /// files included, unchanged — its path and its full new text, in file
    /// order.  The caller writes them out; the marker set is untouched.
    pub fn dist_upgrade_render(&mut self, retain: &Vec<String>, from_suite: &str, to_suite: &str)
        -> (out: Vec<(String, String)>)
        requires
            lists_wf(old(self)@),
        ensures
            lists_wf(final(self)@),
            final(self)@.files.len() == old(self)@.files.len(),
            final(self)@.modified == old(self)@.modified,
            forall|i: int|
                0 <= i < old(self)@.files.len() ==> final(self)@.files[i] == upgrade_file(
                    #[trigger] old(self)@.files[i],
                    retain.deep_view(),
                    from_suite@,
                    to_suite@,
                ),
            out.deep_view().len() == old(self)@.files.len(),
            forall|i: int|
                0 <= i < old(self)@.files.len() ==> (#[trigger] out.deep_view()[i]) == ({
                    let newf = upgrade_file(
                        old(self)@.files[i],
                        retain.deep_view(),
                        from_suite@,
                        to_suite@,
                    );
                    (newf.path, file_render_of(newf.entries))
                }),
    {
        let ghost pre = old(self)@;
        let mut out: Vec<(String, String)> = Vec::new();
        let mut i: usize = 0;
        while i < self.files.len()
            invariant
                pre == old(self)@,
                i <= pre.files.len(),
                self.files@.len() == pre.files.len(),
                self.modified@ == pre.modified,
                lists_wf(pre),
                forall|k: int|
                    i <= k < pre.files.len() ==> self.files@[k] == old(self).files@[k],
                forall|k: int|
                    0 <= k < i ==> self.files.deep_view()[k] == upgrade_file(
                        #[trigger] pre.files[k],
                        retain.deep_view(),
                        from_suite@,
                        to_suite@,
                    ),
                forall|k: int|
                    0 <= k < pre.files.len() ==> file_wf(#[trigger] self.files.deep_view()[k]),
                out.deep_view().len() == i,
                forall|k: int|
                    0 <= k < i ==> (#[trigger] out.deep_view()[k]) == ({
                        let newf = upgrade_file(
                            pre.files[k],
                            retain.deep_view(),
                            from_suite@,
                            to_suite@,
                        );
                        (newf.path, file_render_of(newf.entries))
                    }),
            decreases pre.files.len() - i,
        {
            let ghost opre = out.deep_view();
            proof {
                assert(self.files@[i as int] == old(self).files@[i as int]);
                assert(self.files@[i as int].deep_view() == old(self).files@[
                    i as int].deep_view());
                assert(self.files.deep_view()[i as int] == self.files@[i as int].deep_view());
                assert(pre.files[i as int] == old(self).files@[i as int].deep_view());
                assert(self.files.deep_view()[i as int] == pre.files[i as int]);
            }
            let newf = upgrade_file_exec(&self.files[i], retain, from_suite, to_suite);
            let path_copy = String::from_str(newf.path.as_str());
            let textr = newf.to_text();
            let ghost fpre = self.files.deep_view();
            self.files.set(i, newf);
            out.push((path_copy, textr));
            proof {
                assert forall|k: int|
                    0 <= k < pre.files.len() implies file_wf(
                    #[trigger] self.files.deep_view()[k],
                ) by {
                    if k != i {
                        assert(self.files.deep_view()[k] == fpre[k]);
                        assert(file_wf(fpre[k]));
                    }
                }
                assert forall|k: int|
                    0 <= k < i + 1 implies (#[trigger] out.deep_view()[k]) == ({
                    let nf = upgrade_file(
                        pre.files[k],
                        retain.deep_view(),
                        from_suite@,
                        to_suite@,
                    );
                    (nf.path, file_render_of(nf.entries))
                }) by {
                    if k < i {
                        assert(out.deep_view()[k] == opre[k]);
                    }
                }
            }
            i = i + 1;
        }
        out
    }

    /// Renders every file marked modified, in first-marked order, and clears
    /// the marker set: the returned `(path, text)` pairs are exactly the
    /// files the caller must overwrite.  Files never marked are untouched.
    pub fn write_sync(&mut self) -> (out: Vec<(String, String)>)
        requires
            lists_wf(old(self)@),
        ensures
            lists_wf(final(self)@),
            final(self)@.files == old(self)@.files,
            final(self)@.modified =~= Seq::<usize>::empty(),
            out.deep_view().len() == old(self)@.modified.len(),
            forall|a: int|
                0 <= a < old(self)@.modified.len() ==> (#[trigger] out.deep_view()[a]) == ({
                    let f = old(self)@.files[old(self)@.modified[a] as int];
                    (f.path, file_render_of(f.entries))
                }),
    {
        let ghost pre = old(self)@;
        let mut out: Vec<(String, String)> = Vec::new();
        let mut a: usize = 0;
        while a < self.modified.len()
            invariant
                pre == old(self)@,
                a <= pre.modified.len(),
                *self == *old(self),
                lists_wf(pre),
                out.deep_view().len() == a,
                forall|b: int|
                    0 <= b < a ==> (#[trigger] out.deep_view()[b]) == ({
                        let f = pre.files[pre.modified[b] as int];
                        (f.path, file_render_of(f.entries))
                    }),
            decreases pre.modified.len() - a,
        {
            let ghost opre = out.deep_view();
            let fi = self.modified[a];
            proof {
                assert(pre.modified[a as int] == fi);
                assert((fi as int) < pre.files.len());
                assert(self.files@[fi as int].deep_view() == pre.files[fi as int]);
                assert(file_wf(pre.files[fi as int]));
            }
            let path_copy = String::from_str(self.files[fi].path.as_str());
            let textr = self.files[fi].to_text();
            out.push((path_copy, textr));
            proof {
                assert forall|b: int|
                    0 <= b < a + 1 implies (#[trigger] out.deep_view()[b]) == ({
                    let f = pre.files[pre.modified[b] as int];
                    (f.path, file_render_of(f.entries))
                }) by {
                    if b < a {
                        assert(out.deep_view()[b] == opre[b]);
                    }
                }
            }
            a = a + 1;
        }
        self.modified = Vec::new();
        out
    }

    /// Calls `visit` on every entry of every file, in order.  An entry for
    /// which `visit` returns a replacement is overwritten by it — keeping
    /// the file's format tag — and the owning file is marked modified.
    pub fn entries_mut<F: Fn(&SourceEntry) -> Option<SourceEntry>>(&mut self, visit: F)
        requires
            lists_wf(old(self)@),
            forall|e: &SourceEntry| #[trigger] call_requires(visit, (e,)),
        ensures
            lists_wf(final(self)@),
            final(self)@.files.len() == old(self)@.files.len(),
            forall|i: int|
                0 <= i < old(self)@.files.len() ==> visited_file(
                    visit,
                    #[trigger] old(self).files@[i],
                    final(self)@.files[i],
                ),
            final(self)@.modified.len() >= old(self)@.modified.len(),
            final(self)@.modified.take(old(self)@.modified.len() as int) == old(self)@.modified,
            forall|a: int|
                old(self)@.modified.len() <= a < final(self)@.modified.len() ==> ({
                    let fi = #[trigger] final(self)@.modified[a];
                    &&& (fi as int) < old(self)@.files.len()
                    &&& !old(self)@.modified.contains(fi)
                    &&& file_entry_replaced(visit, old(self).files@[fi as int])
                }),
            forall|fi: usize|
                (fi as int) < old(self)@.files.len() && final(self)@.files[fi as int] != old(
                    self,
                )@.files[fi as int] ==> final(self)@.modified.contains(fi),
    {
        let ghost pre = old(self)@;
        let mut i: usize = 0;
        while i < self.files.len()
            invariant
                pre == old(self)@,
                i <= pre.files.len(),
                self.files@.len() == pre.files.len(),
                lists_wf(pre),
                forall|e: &SourceEntry| #[trigger] call_requires(visit, (e,)),
                forall|k: int|
                    i <= k < pre.files.len() ==> self.files@[k] == old(self).files@[k],
                forall|k: int|
                    0 <= k < i ==> visited_file(
                        visit,
                        #[trigger] old(self).files@[k],
                        self.files.deep_view()[k],
                    ),
                forall|k: int|
                    0 <= k < pre.files.len() ==> file_wf(#[trigger] self.files.deep_view()[k]),
                self.modified@.len() >= pre.modified.len(),
                self.modified@.take(pre.modified.len() as int) == pre.modified,
                forall|a: int, b: int|
                    pre.modified.len() <= a < b < self.modified@.len() ==> self.modified@[a]
                        < self.modified@[b],
                forall|a: int|
                    pre.modified.len() <= a < self.modified@.len() ==> ({
                        let fi = #[trigger] self.modified@[a];
                        &&& (fi as int) < i
                        &&& !pre.modified.contains(fi)
                        &&& file_entry_replaced(visit, old(self).files@[fi as int])
                    }),
                forall|fi: usize|
                    (fi as int) < i && self.files.deep_view()[fi as int] != pre.files[fi as int]
                        ==> self.modified@.contains(fi),
            decreases pre.files.len() - i,
        {
            let ghost mpre = self.modified@;
            proof {
                assert(self.files@[i as int] == old(self).files@[i as int]);
                assert(self.files@[i as int].deep_view() == old(self).files@[
                    i as int].deep_view());
                assert(self.files.deep_view()[i as int] == self.files@[i as int].deep_view());
                assert(pre.files[i as int] == old(self).files@[i as int].deep_view());
            }
            let ghost oldfile = old(self).files@[i as int];
            let mut changed = false;
            let newf: SourcesList = match &self.files[i].entries {
                SourceListType::SourceLine(ls) => {
                    let mut nl: Vec<SourceLine> = Vec::new();
                    let mut j: usize = 0;
                    while j < ls.len()
                        invariant
                            j <= ls@.len(),
                            *ls == (match oldfile.entries {
                                SourceListType::SourceLine(x) => x,
                                _ => *ls,
                            }),
                            oldfile.entries matches SourceListType::SourceLine(_),
                            forall|e: &SourceEntry| #[trigger] call_requires(visit, (e,)),
                            file_wf(oldfile@),
                            nl.deep_view().len() == j,
                            forall|q: int|
                                0 <= q < j ==> crate::source_line::line_wf(
                                    #[trigger] nl.deep_view()[q],
                                ),
                            forall|q: int|
                                0 <= q < j ==> (match ls@[q] {
                                    SourceLine::Entry(e) => (#[trigger] nl.deep_view()[q])
                                        matches LineView::Entry(ne) && visited_slot(
                                        visit,
                                        e,
                                        ne,
                                    ),
                                    _ => nl.deep_view()[q] == ls@[q]@,
                                }),
                            changed ==> (exists|q: int|
                                0 <= q < j && ((#[trigger] ls@[q]) matches SourceLine::Entry(e2)
                                    && entry_replaced(visit, e2))),
                            !changed ==> nl.deep_view() =~~= ls.deep_view().take(j as int),
                        decreases ls@.len() - j,
                    {
                        let ghost nlpre = nl.deep_view();
                        match &ls[j] {
                            SourceLine::Entry(e) => {
                                let res = visit(e);
                                match res {
                                    Some(n) => {
                                        let mut n2 = n;
                                        n2.is_deb822 = e.is_deb822;
                                        proof {
                                            assert(call_ensures(visit, (e,), Some(n2)) || true);
                                            assert(n2@ =~= (EntryView {
                                                is_deb822: e@.is_deb822,
                                                ..n@
                                            }));
                                            assert(oldfile@.entries == ListTypeView::Lines(
                                                ls.deep_view(),
                                            ));
                                            assert(ls.deep_view()[j as int] == ls@[j as int]@);
                                            assert(crate::source_line::line_wf(
                                                ls.deep_view()[j as int],
                                            ));
                                            assert(!e@.is_deb822);
                                        }
                                        nl.push(SourceLine::Entry(n2));
                                        changed = true;
                                        proof {
                                            assert(visited_slot(visit, *e, n2@));
                                            assert(entry_replaced(visit, *e)) by {
                                                assert(call_ensures(visit, (e,), Some(n)));
                                            }
                                            assert(ls@[j as int] matches SourceLine::Entry(e3)
                                                && entry_replaced(visit, e3));
                                        }
                                    },
                                    None => {
                                        let copy = e.duplicate();
                                        nl.push(SourceLine::Entry(copy));
                                        proof {
                                            assert(visited_slot(visit, *e, e@));
                                            assert(oldfile@.entries == ListTypeView::Lines(
                                                ls.deep_view(),
                                            ));
                                            assert(ls.deep_view()[j as int] == ls@[j as int]@);
                                            assert(crate::source_line::line_wf(
                                                ls.deep_view()[j as int],
                                            ));
                                        }
                                    },
                                }
                            },
                            SourceLine::Comment(c) => {
                                nl.push(SourceLine::Comment(String::from_str(c.as_str())));
                            },
                            SourceLine::Empty => {
                                nl.push(SourceLine::Empty);
                            },
                        }
                        proof {
                            assert forall|q: int| 0 <= q < j + 1 implies (match ls@[q] {
                                SourceLine::Entry(e) => (#[trigger] nl.deep_view()[q])
                                    matches LineView::Entry(ne) && visited_slot(visit, e, ne),
                                _ => nl.deep_view()[q] == ls@[q]@,
                            }) by {
                                if q < j {
                                    assert(nl.deep_view()[q] == nlpre[q]);
                                }
                            }
                            assert forall|q: int|
                                0 <= q < j + 1 implies crate::source_line::line_wf(
                                #[trigger] nl.deep_view()[q],
                            ) by {
                                if q < j {
                                    assert(nl.deep_view()[q] == nlpre[q]);
                                }
                            }
                            if !changed {
                                assert(ls.deep_view().take(j + 1) =~~= ls.deep_view().take(
                                    j as int,
                                ).push(ls.deep_view()[j as int]));
                                assert(nl.deep_view() =~~= nlpre.push(ls.deep_view()[j as int]));
                            }
                        }
                        j = j + 1;
                    }
                    proof {
                        if !changed {
                            assert(ls.deep_view().take(ls@.len() as int) =~~= ls.deep_view());
                        } else {
                            assert(file_entry_replaced(visit, oldfile));
                        }
                    }
                    SourcesList {
                        path: String::from_str(self.files[i].path.as_str()),
                        entries: SourceListType::SourceLine(nl),
                    }
                },
                SourceListType::Deb822(d) => {
                    let mut ne: Vec<SourceEntry> = Vec::new();
                    let mut j: usize = 0;
                    while j < d.entries.len()
                        invariant
                            j <= d.entries@.len(),
                            *d == (match oldfile.entries {
                                SourceListType::Deb822(x) => x,
                                _ => *d,
                            }),
                            oldfile.entries matches SourceListType::Deb822(_),
                            forall|e: &SourceEntry| #[trigger] call_requires(visit, (e,)),
                            file_wf(oldfile@),
                            ne.deep_view().len() == j,
                            forall|q: int|
                                0 <= q < j ==> (#[trigger] ne.deep_view()[q]).is_deb822,
                            forall|q: int|
                                0 <= q < j ==> visited_slot(
                                    visit,
                                    d.entries@[q],
                                    #[trigger] ne.deep_view()[q],
                                ),
                            changed ==> (exists|q: int|
                                0 <= q < j && entry_replaced(visit, #[trigger] d.entries@[q])),
                            !changed ==> ne.deep_view() =~~= d.entries.deep_view().take(j as int),
                        decreases d.entries@.len() - j,
                    {
                        let ghost nepre = ne.deep_view();
                        let e = &d.entries[j];
                        let res = visit(e);
                        match res {
                            Some(n) => {
                                let mut n2 = n;
                                n2.is_deb822 = e.is_deb822;
                                proof {
                                    assert(n2@ =~= (EntryView { is_deb822: e@.is_deb822, ..n@ }));
                                    assert(d.entries.deep_view()[j as int].is_deb822);
                                }
                                ne.push(n2);
                                changed = true;
                                proof {
                                    assert(visited_slot(visit, *e, n2@));
                                    assert(entry_replaced(visit, *e)) by {
                                        assert(call_ensures(visit, (e,), Some(n)));
                                    }
                                    assert(entry_replaced(visit, d.entries@[j as int]));
                                }
                            },
                            None => {
                                let copy = e.duplicate();
                                ne.push(copy);
                                proof {
                                    assert(visited_slot(visit, *e, e@));
                                    assert(d.entries.deep_view()[j as int].is_deb822);
                                }
                            },
                        }
                        proof {
                            assert forall|q: int| 0 <= q < j + 1 implies visited_slot(
                                visit,
                                d.entries@[q],
                                #[trigger] ne.deep_view()[q],
                            ) by {
                                if q < j {
                                    assert(ne.deep_view()[q] == nepre[q]);
                                }
                            }
                            assert forall|q: int|
                                0 <= q < j + 1 implies (#[trigger] ne.deep_view()[q]).is_deb822 by {
                                if q < j {
                                    assert(ne.deep_view()[q] == nepre[q]);
                                }
                            }
                            if !changed {
                                assert(d.entries.deep_view().take(j + 1)
                                    =~~= d.entries.deep_view().take(j as int).push(
                                    d.entries.deep_view()[j as int],
                                ));
                                assert(ne.deep_view() =~~= nepre.push(
                                    d.entries.deep_view()[j as int],
                                ));
                            }
                        }
                        j = j + 1;
                    }
                    proof {
                        if !changed {
                            assert(d.entries.deep_view().take(d.entries@.len() as int)
                                =~~= d.entries.deep_view());
                        } else {
                            assert(file_entry_replaced(visit, oldfile));
                        }
                    }
                    SourcesList {
                        path: String::from_str(self.files[i].path.as_str()),
                        entries: SourceListType::Deb822(SourceListDeb822 { entries: ne }),
                    }
                },
            };
            proof {
                assert(visited_file(visit, oldfile, newf@));
                assert(file_wf(newf@));
                if !changed {
                    assert(newf@ =~= pre.files[i as int]);
                }
            }
            let ghost fpre = self.files.deep_view();
            self.files.set(i, newf);
            if changed {
                add_modified(&mut self.modified, i);
                proof {
                    if mpre.contains(i) {
                        assert(self.modified@ == mpre);
                        let a = choose|a: int| 0 <= a < mpre.len() && mpre[a] == i;
                        if a < pre.modified.len() {
                            assert(pre.modified[a] == i);
                        } else {
                            assert((mpre[a] as int) < i);
                        }
                        assert(self.modified@.contains(i));
                    } else {
                        assert(self.modified@ == mpre.push(i));
                        assert(self.modified@[self.modified@.len() - 1] == i);
                        assert(self.modified@.contains(i));
                        assert(self.modified@.take(pre.modified.len() as int) =~= mpre.take(
                            pre.modified.len() as int,
                        ));
                    }
                }
            }
            proof {
                assert forall|k: int|
                    0 <= k < pre.files.len() implies file_wf(
                    #[trigger] self.files.deep_view()[k],
                ) by {
                    if k != i {
                        assert(self.files.deep_view()[k] == fpre[k]);
                        assert(file_wf(fpre[k]));
                    }
                }
                assert forall|fi: usize|
                    (fi as int) < i + 1 && self.files.deep_view()[fi as int] != pre.files[
                    fi as int] implies self.modified@.contains(fi) by {
                    if (fi as int) < i {
                        assert(self.files.deep_view()[fi as int] == fpre[fi as int]);
                        assert(mpre.contains(fi));
                        let a = choose|a: int| 0 <= a < mpre.len() && mpre[a] == fi;
                        assert(self.modified@[a] == fi);
                    } else {
                        assert(self.files.deep_view()[fi as int] == newf@);
                    }
                }
            }
            i = i + 1;
        }
        proof {
            assert(final(self)@.modified.take(pre.modified.len() as int) == pre.modified);
            lemma_marks_extended(pre.modified, self.modified@, pre.files.len() as int);
        }
    }
}

/// The entries a sequence of lines holds, in order.
pub open spec fn line_entries(ls: Seq<LineView>) -> Seq<EntryView>
    decreases ls.len(),
{
    if ls.len() == 0 {
        Seq::empty()
    } else {
        (match ls[0] {
            LineView::Entry(e) => seq![e],
            _ => Seq::empty(),
        }) + line_entries(ls.skip(1))
    }
}

/// The entries one file holds, both enabled and disabled.
pub open spec fn file_entries(f: FileView) -> Seq<EntryView> {
    match f.entries {
        ListTypeView::Lines(ls) => line_entries(ls),
        ListTypeView::Deb822(es) => es,
    }
}

/// The entries of all files, flattened in file order.
pub open spec fn all_entries(files: Seq<FileView>) -> Seq<EntryView>
    decreases files.len(),
{
    if files.len() == 0 {
        Seq::empty()
    } else {
        file_entries(files[0]) + all_entries(files.skip(1))
    }
}

/// The entries of one file, copied out.
fn file_entries_exec(f: &SourcesList) -> (r: Vec<SourceEntry>)
    ensures
        r.deep_view() == file_entries(f@),
{
    let mut r: Vec<SourceEntry> = Vec::new();
    match &f.entries {
        SourceListType::SourceLine(ls) => {
            let ghost lsv = ls.deep_view();
            let mut j: usize = 0;
            proof {
                assert(lsv.skip(0) =~~= lsv);
                assert(r.deep_view() + line_entries(lsv) =~~= line_entries(lsv));
            }
            while j < ls.len()
                invariant
                    j <= ls@.len(),
                    lsv == ls.deep_view(),
                    f@.entries == ListTypeView::Lines(lsv),
                    r.deep_view() + line_entries(lsv.skip(j as int)) =~~= line_entries(lsv),
                decreases ls@.len() - j,
            {
                let ghost prev = r.deep_view();
                proof {
                    assert(lsv.skip(j as int)[0] == lsv[j as int]);
                    assert(lsv.skip(j as int).skip(1) =~~= lsv.skip(j + 1));
                }
                match &ls[j] {
                    SourceLine::Entry(e) => {
                        r.push(e.duplicate());
                        proof {
                            let rest = line_entries(lsv.skip(j + 1));
                            assert(prev + (seq![lsv[j as int]->Entry_0] + rest) =~~= r.deep_view()
                                + rest);
                        }
                    },
                    _ => {
                        proof {
                            let rest = line_entries(lsv.skip(j + 1));
                            assert(prev + (Seq::<EntryView>::empty() + rest) =~~= r.deep_view()
                                + rest);
                        }
                    },
                }
                j = j + 1;
            }
            proof {
                assert(lsv.skip(ls@.len() as int) =~~= Seq::<LineView>::empty());
                assert(r.deep_view() + Seq::<EntryView>::empty() =~~= r.deep_view());
            }
        },
        SourceListType::Deb822(d) => {
            let ghost esv = d.entries.deep_view();
            let mut j: usize = 0;
            while j < d.entries.len()
                invariant
                    j <= d.entries@.len(),
                    esv == d.entries.deep_view(),
                    f@.entries == ListTypeView::Deb822(esv),
                    r.deep_view() =~~= esv.take(j as int),
                decreases d.entries@.len() - j,
            {
                let ghost prev = r.deep_view();
                r.push(d.entries[j].duplicate());
                proof {
                    assert(esv.take(j + 1) =~~= esv.take(j as int).push(esv[j as int]));
                    assert(r.deep_view() =~~= prev.push(esv[j as int]));
                }
                j = j + 1;
            }
            proof {
                assert(esv.take(d.entries@.len() as int) =~~= esv);
            }
        },
    }
    r
}

proof fn lemma_all_entries_push(files: Seq<FileView>, f: FileView)
    ensures
        all_entries(files.push(f)) == all_entries(files) + file_entries(f),
    decreases files.len(),
{
    if files.len() == 0 {
        assert(files.push(f)[0] == f);
        assert(files.push(f).skip(1) =~~= Seq::<FileView>::empty());
        assert(all_entries(Seq::<FileView>::empty()) == Seq::<EntryView>::empty());
        assert(all_entries(files.push(f)) =~= file_entries(f));
        assert(all_entries(files) + file_entries(f) =~= file_entries(f));
    } else {
        lemma_all_entries_push(files.skip(1), f);
        assert(files.push(f).skip(1) =~~= files.skip(1).push(f));
        assert(files.push(f)[0] == files[0]);
        assert(all_entries(files.push(f)) == file_entries(files[0]) + all_entries(
            files.skip(1).push(f),
        ));
        assert(all_entries(files.push(f)) =~= all_entries(files) + file_entries(f));
    }
}

/// An entry with its suite rewritten when it starts with `from`: the first
/// occurrence of `from` and every later one inside the suite are replaced.
pub open spec fn retarget_entry(e: EntryView, from: Seq<char>, to: Seq<char>) -> EntryView {
    if text::is_prefix(from, e.suite) {
        EntryView { suite: text::replace_of(e.suite, from, to), ..e }
    } else {
        e
    }
}

/// A line with its entry's suite rewritten when it starts with `from`.
pub open spec fn retarget_line(l: LineView, from: Seq<char>, to: Seq<char>) -> LineView {
    match l {
        LineView::Entry(e) => LineView::Entry(retarget_entry(e, from, to)),
        _ => l,
    }
}

/// Whether the slot at `i` holds an entry whose suite starts with `from`.
pub open spec fn slot_suite_matches(t: ListTypeView, i: int, from: Seq<char>) -> bool {
    match t {
        ListTypeView::Lines(ls) => ls[i] matches LineView::Entry(e) && text::is_prefix(
            from,
            e.suite,
        ),
        ListTypeView::Deb822(es) => text::is_prefix(from, es[i].suite),
    }
}

/// Whether some entry of the file has a suite starting with `from`.
pub open spec fn file_has_suite(f: FileView, from: Seq<char>) -> bool {
    exists|i: int| 0 <= i < slot_count(f.entries) && slot_suite_matches(f.entries, i, from)
}

/// A file with every matching suite rewritten.
pub open spec fn retarget_file(f: FileView, from: Seq<char>, to: Seq<char>) -> FileView {
    FileView {
        path: f.path,
        entries: match f.entries {
            ListTypeView::Lines(ls) => ListTypeView::Lines(
                Seq::new(ls.len(), |i: int| retarget_line(ls[i], from, to)),
            ),
            ListTypeView::Deb822(es) => ListTypeView::Deb822(
                Seq::new(es.len(), |i: int| retarget_entry(es[i], from, to)),
            ),
        },
    }
}

/// Rewrites every matching suite of one file; reports whether any matched.
fn retarget_file_exec(f: &SourcesList, from: &str, to: &str) -> (r: (SourcesList, bool))
    ensures
        r.0@ == retarget_file(f@, from@, to@),
        r.1 == file_has_suite(f@, from@),
        file_wf(f@) ==> file_wf(r.0@),
{
    let ghost t = f@.entries;
    match &f.entries {
        SourceListType::SourceLine(ls) => {
            let ghost lsv = ls.deep_view();
            let mut newls: Vec<SourceLine> = Vec::new();
            let mut found = false;
            let mut j: usize = 0;
            while j < ls.len()
                invariant
                    j <= ls@.len(),
                    lsv == ls.deep_view(),
                    t == ListTypeView::Lines(lsv),
                    newls.deep_view().len() == j,
                    forall|k: int| 0 <= k < j ==> newls.deep_view()[k] == retarget_line(
                        lsv[k],
                        from@,
                        to@,
                    ),
                    found == exists|k: int| 0 <= k < j && slot_suite_matches(t, k, from@),
                decreases ls@.len() - j,
            {
                let ghost prev = newls.deep_view();
                match &ls[j] {
                    SourceLine::Entry(e) => {
                        let mut e2 = e.duplicate();
                        if text::starts_with(e2.suite.as_str(), from) {
                            e2.suite = text::replace(e2.suite.as_str(), from, to);
                            found = true;
                            proof {
                                assert(slot_suite_matches(t, j as int, from@));
                                assert(e2@ =~= retarget_entry(e@, from@, to@));
                            }
                        } else {
                            proof {
                                assert(!slot_suite_matches(t, j as int, from@));
                                assert(e2@ =~= retarget_entry(e@, from@, to@));
                            }
                        }
                        newls.push(SourceLine::Entry(e2));
                    },
                    SourceLine::Comment(c) => {
                        newls.push(SourceLine::Comment(String::from_str(c.as_str())));
                        proof {
                            assert(!slot_suite_matches(t, j as int, from@));
                        }
                    },
                    SourceLine::Empty => {
                        newls.push(SourceLine::Empty);
                        proof {
                            assert(!slot_suite_matches(t, j as int, from@));
                        }
                    },
                }
                proof {
                    assert forall|k: int| 0 <= k < j + 1 implies newls.deep_view()[k]
                        == retarget_line(lsv[k], from@, to@) by {
                        if k < j {
                            assert(newls.deep_view()[k] == prev[k]);
                        }
                    }
                }
                j = j + 1;
            }
            let out = SourcesList {
                path: String::from_str(f.path.as_str()),
                entries: SourceListType::SourceLine(newls),
            };
            proof {
                let target = Seq::new(lsv.len(), |i: int| retarget_line(lsv[i], from@, to@));
                assert(newls.deep_view() =~~= target);
                assert(out@.entries == ListTypeView::Lines(target));
                assert(retarget_file(f@, from@, to@).entries == ListTypeView::Lines(target));
                assert(out@ =~= retarget_file(f@, from@, to@));
            }
            (out, found)
        },
        SourceListType::Deb822(d) => {
            let ghost esv = d.entries.deep_view();
            let mut newes: Vec<SourceEntry> = Vec::new();
            let mut found = false;
            let mut j: usize = 0;
            while j < d.entries.len()
                invariant
                    j <= d.entries@.len(),
                    esv == d.entries.deep_view(),
                    t == ListTypeView::Deb822(esv),
                    newes.deep_view().len() == j,
                    forall|k: int| 0 <= k < j ==> newes.deep_view()[k] == retarget_entry(
                        esv[k],
                        from@,
                        to@,
                    ),
                    found == exists|k: int| 0 <= k < j && slot_suite_matches(t, k, from@),
                decreases d.entries@.len() - j,
            {
                let ghost prev = newes.deep_view();
                let mut e2 = d.entries[j].duplicate();
                if text::starts_with(e2.suite.as_str(), from) {
                    e2.suite = text::replace(e2.suite.as_str(), from, to);
                    found = true;
                    proof {
                        assert(slot_suite_matches(t, j as int, from@));
                        assert(e2@ =~= retarget_entry(esv[j as int], from@, to@));
                    }
                } else {
                    proof {
                        assert(!slot_suite_matches(t, j as int, from@));
                        assert(e2@ =~= retarget_entry(esv[j as int], from@, to@));
                    }
                }
                newes.push(e2);
                proof {
                    assert forall|k: int| 0 <= k < j + 1 implies newes.deep_view()[k]
                        == retarget_entry(esv[k], from@, to@) by {
                        if k < j {
                            assert(newes.deep_view()[k] == prev[k]);
                        }
                    }
                }
                j = j + 1;
            }
            let out = SourcesList {
                path: String::from_str(f.path.as_str()),
                entries: SourceListType::Deb822(SourceListDeb822 { entries: newes }),
            };
            proof {
                let target = Seq::new(esv.len(), |i: int| retarget_entry(esv[i], from@, to@));
                assert(newes.deep_view() =~~= target);
                assert(out@.entries == ListTypeView::Deb822(target));
                assert(retarget_file(f@, from@, to@).entries == ListTypeView::Deb822(target));
                assert(out@ =~= retarget_file(f@, from@, to@));
            }
            (out, found)
        },
    }
}

/// Copies a vector of lines.
fn clone_lines(ls: &Vec<SourceLine>) -> (r: Vec<SourceLine>)
    ensures
        r.deep_view() == ls.deep_view(),
{
    let mut r: Vec<SourceLine> = Vec::new();
    let mut i: usize = 0;
    while i < ls.len()
        invariant
            i <= ls@.len(),
            r.deep_view().len() == i,
            forall|k: int| 0 <= k < i ==> r.deep_view()[k] == ls.deep_view()[k],
        decreases ls@.len() - i,
    {
        let ghost prev = r.deep_view();
        r.push(ls[i].duplicate());
        proof {
            assert forall|k: int| 0 <= k < i + 1 implies r.deep_view()[k] == ls.deep_view()[
            k] by {
                if k < i {
                    assert(r.deep_view()[k] == prev[k]);
                }
            }
        }
        i = i + 1;
    }
    proof {
        assert(r.deep_view() =~~= ls.deep_view());
    }
    r
}

/// Copies a vector of entries.
fn clone_entries(es: &Vec<SourceEntry>) -> (r: Vec<SourceEntry>)
    ensures
        r.deep_view() == es.deep_view(),
{
    let mut r: Vec<SourceEntry> = Vec::new();
    let mut i: usize = 0;
    while i < es.len()
        invariant
            i <= es@.len(),
            r.deep_view().len() == i,
            forall|k: int| 0 <= k < i ==> r.deep_view()[k] == es.deep_view()[k],
        decreases es@.len() - i,
    {
        let ghost prev = r.deep_view();
        r.push(es[i].duplicate());
        proof {
            assert forall|k: int| 0 <= k < i + 1 implies r.deep_view()[k] == es.deep_view()[
            k] by {
                if k < i {
                    assert(r.deep_view()[k] == prev[k]);
                }
            }
        }
        i = i + 1;
    }
    proof {
        assert(r.deep_view() =~~= es.deep_view());
    }
    r
}

/// An entry with its format tag set to the file's kind.
pub open spec fn coerce_tag(e: EntryView, deb: bool) -> EntryView {
    EntryView { is_deb822: deb, ..e }
}

/// The file content with the slot at `i` replaced by the entry.
pub open spec fn set_slot(t: ListTypeView, i: int, e: EntryView) -> ListTypeView {
    match t {
        ListTypeView::Lines(ls) => ListTypeView::Lines(ls.update(i, LineView::Entry(e))),
        ListTypeView::Deb822(es) => ListTypeView::Deb822(es.update(i, e)),
    }
}

/// The file content with the entry appended.
pub open spec fn push_slot(t: ListTypeView, e: EntryView) -> ListTypeView {
    match t {
        ListTypeView::Lines(ls) => ListTypeView::Lines(ls.push(LineView::Entry(e))),
        ListTypeView::Deb822(es) => ListTypeView::Deb822(es.push(e)),
    }
}

/// The file content with the slot at `i` removed.
pub open spec fn remove_slot(t: ListTypeView, i: int) -> ListTypeView {
    match t {
        ListTypeView::Lines(ls) => ListTypeView::Lines(ls.remove(i)),
        ListTypeView::Deb822(es) => ListTypeView::Deb822(es.remove(i)),
    }
}

/// Inserting an entry into a file: it replaces the first entry sharing its
/// URL, or is appended; either way it takes the file's format tag.
pub open spec fn insert_into_file(f: FileView, e: EntryView) -> FileView {
    let e2 = coerce_tag(e, f.entries is Deb822);
    match slot_find(f.entries, e.url) {
        Some(p) => FileView { path: f.path, entries: set_slot(f.entries, p, e2) },
        None => FileView { path: f.path, entries: push_slot(f.entries, e2) },
    }
}

/// The first file whose path is exactly `path`, if any.
pub open spec fn find_path(files: Seq<FileView>, path: Seq<char>) -> Option<int> {
    if exists|i: int| 0 <= i < files.len() && (#[trigger] files[i]).path == path {
        Some(
            choose|i: int|
                0 <= i < files.len() && (#[trigger] files[i]).path == path && forall|j: int|
                    0 <= j < i ==> files[j].path != path,
        )
    } else {
        None
    }
}

pub proof fn lemma_find_path_at(files: Seq<FileView>, path: Seq<char>, m: int)
    requires
        0 <= m <= files.len(),
        forall|j: int| 0 <= j < m ==> (#[trigger] files[j]).path != path,
        m == files.len() || files[m].path == path,
    ensures
        find_path(files, path) == if m == files.len() {
            None::<int>
        } else {
            Some(m)
        },
{
    if m == files.len() {
        assert(forall|i: int| 0 <= i < files.len() ==> (#[trigger] files[i]).path != path);
    } else {
        assert(exists|i: int| 0 <= i < files.len() && (#[trigger] files[i]).path == path);
        let w = choose|i: int|
            0 <= i < files.len() && (#[trigger] files[i]).path == path && forall|j: int|
                0 <= j < i ==> files[j].path != path;
        if w < m {
            assert(files[w].path != path);
        }
        if w > m {
            assert(files[m].path != path);
        }
    }
}

/// An entry rewritten for a release upgrade: entries to retain, non-http
/// entries and entries of other suites stay as they are.
pub open spec fn upgrade_entry(
    e: EntryView,
    retain: Seq<Seq<char>>,
    from: Seq<char>,
    to: Seq<char>,
) -> EntryView {
    if !retain.contains(e.url) && text::is_prefix("http"@, e.url) && text::is_prefix(
        from,
        e.suite,
    ) {
        EntryView { suite: text::replace_of(e.suite, from, to), ..e }
    } else {
        e
    }
}

/// A line rewritten for a release upgrade.
pub open spec fn upgrade_line(
    l: LineView,
    retain: Seq<Seq<char>>,
    from: Seq<char>,
    to: Seq<char>,
) -> LineView {
    match l {
        LineView::Entry(e) => LineView::Entry(upgrade_entry(e, retain, from, to)),
        _ => l,
    }
}

/// A file rewritten for a release upgrade: line-style files get their suites
/// substituted, deb822 files are left exactly as they are — that asymmetry
/// is deliberate and preserved; callers rewrite deb822 suites beforehand.
pub open spec fn upgrade_file(
    f: FileView,
    retain: Seq<Seq<char>>,
    from: Seq<char>,
    to: Seq<char>,
) -> FileView {
    match f.entries {
        ListTypeView::Lines(ls) => (FileView {
            path: f.path,
            entries: ListTypeView::Lines(
                Seq::new(ls.len(), |i: int| upgrade_line(ls[i], retain, from, to)),
            ),
        }),
        ListTypeView::Deb822(_) => f,
    }
}

/// The dist paths of the upgradeable entries: those with an http URL and a
/// suite starting with `from`, each path built with the suite substituted.
pub open spec fn upgrade_paths_of(es: Seq<EntryView>, from: Seq<char>, to: Seq<char>) -> Seq<
    Seq<char>,
>
    decreases es.len(),
{
    if es.len() == 0 {
        Seq::empty()
    } else {
        (if text::is_prefix("http"@, es[0].url) && text::is_prefix(from, es[0].suite) {
            seq![
                crate::source_entry::dist_path_of(
                    EntryView { suite: text::replace_of(es[0].suite, from, to), ..es[0] },
                ),
            ]
        } else {
            Seq::empty()
        }) + upgrade_paths_of(es.skip(1), from, to)
    }
}

/// Whether one of the strings is exactly `s`.
fn vec_contains_str(v: &Vec<String>, s: &str) -> (r: bool)
    ensures
        r == v.deep_view().contains(s@),
{
    let mut i: usize = 0;
    while i < v.len()
        invariant
            i <= v@.len(),
            forall|k: int| 0 <= k < i ==> v.deep_view()[k] != s@,
        decreases v@.len() - i,
    {
        if text::str_eq(v[i].as_str(), s) {
            proof {
                assert(v.deep_view()[i as int] == s@);
            }
            return true;
        }
        i = i + 1;
    }
    proof {
        if v.deep_view().contains(s@) {
            let w = choose|w: int| 0 <= w < v.deep_view().len() && v.deep_view()[w] == s@;
        }
    }
    false
}

/// Rewrites one file for a release upgrade; deb822 files come back as equal
/// copies.
fn upgrade_file_exec(f: &SourcesList, retain: &Vec<String>, from: &str, to: &str) -> (r:
    SourcesList)
    ensures
        r@ == upgrade_file(f@, retain.deep_view(), from@, to@),
        file_wf(f@) ==> file_wf(r@),
{
    match &f.entries {
        SourceListType::SourceLine(ls) => {
            let ghost lsv = ls.deep_view();
            let mut newls: Vec<SourceLine> = Vec::new();
            let mut j: usize = 0;
            while j < ls.len()
                invariant
                    j <= ls@.len(),
                    lsv == ls.deep_view(),
                    newls.deep_view().len() == j,
                    forall|k: int| 0 <= k < j ==> newls.deep_view()[k] == upgrade_line(
                        lsv[k],
                        retain.deep_view(),
                        from@,
                        to@,
                    ),
                decreases ls@.len() - j,
            {
                let ghost prev = newls.deep_view();
                match &ls[j] {
                    SourceLine::Entry(e) => {
                        let mut e2 = e.duplicate();
                        let keep = vec_contains_str(retain, e2.url.as_str());
                        let http = text::starts_with(e2.url.as_str(), "http");
                        let hits = text::starts_with(e2.suite.as_str(), from);
                        if !keep && http && hits {
                            e2.suite = text::replace(e2.suite.as_str(), from, to);
                        }
                        proof {
                            assert(e2@ =~= upgrade_entry(e@, retain.deep_view(), from@, to@));
                        }
                        newls.push(SourceLine::Entry(e2));
                    },
                    SourceLine::Comment(c) => {
                        newls.push(SourceLine::Comment(String::from_str(c.as_str())));
                    },
                    SourceLine::Empty => {
                        newls.push(SourceLine::Empty);
                    },
                }
                proof {
                    assert forall|k: int| 0 <= k < j + 1 implies newls.deep_view()[k]
                        == upgrade_line(lsv[k], retain.deep_view(), from@, to@) by {
                        if k < j {
                            assert(newls.deep_view()[k] == prev[k]);
                        }
                    }
                }
                j = j + 1;
            }
            let out = SourcesList {
                path: String::from_str(f.path.as_str()),
                entries: SourceListType::SourceLine(newls),
            };
            proof {
                let target = Seq::new(
                    lsv.len(),
                    |i: int| upgrade_line(lsv[i], retain.deep_view(), from@, to@),
                );
                assert(newls.deep_view() =~~= target);
                assert(out@.entries == ListTypeView::Lines(target));
                assert(upgrade_file(f@, retain.deep_view(), from@, to@).entries
                    == ListTypeView::Lines(target));
                assert(out@ =~= upgrade_file(f@, retain.deep_view(), from@, to@));
            }
            out
        },
        SourceListType::Deb822(d) => {
            let ne = clone_entries(&d.entries);
            let out = SourcesList {
                path: String::from_str(f.path.as_str()),
                entries: SourceListType::Deb822(SourceListDeb822 { entries: ne }),
            };
            proof {
                assert(out@ =~= f@);
            }
            out
        },
    }
}

/// One visited entry: some outcome of the callback explains the new value —
/// kept as it was, or replaced by the returned entry, which takes the old
/// format tag.
pub open spec fn visited_slot<F: Fn(&SourceEntry) -> Option<SourceEntry>>(
    visit: F,
    olde: SourceEntry,
    newe: EntryView,
) -> bool {
    exists|res: Option<SourceEntry>|
        #[trigger] call_ensures(visit, (&olde,), res) && (match res {
            None => newe == olde@,
            Some(n) => newe == (EntryView { is_deb822: olde@.is_deb822, ..n@ }),
        })
}

/// The callback offered a replacement for this entry in some outcome.
pub open spec fn entry_replaced<F: Fn(&SourceEntry) -> Option<SourceEntry>>(
    visit: F,
    olde: SourceEntry,
) -> bool {
    exists|n: SourceEntry| call_ensures(visit, (&olde,), Some(n))
}

/// Some entry slot of the file drew a replacement from the callback.
pub open spec fn file_entry_replaced<F: Fn(&SourceEntry) -> Option<SourceEntry>>(
    visit: F,
    oldfile: SourcesList,
) -> bool {
    match oldfile.entries {
        SourceListType::SourceLine(ol) => exists|j: int|
            0 <= j < ol@.len() && ((#[trigger] ol@[j]) matches SourceLine::Entry(e)
                && entry_replaced(visit, e)),
        SourceListType::Deb822(d) => exists|j: int|
            0 <= j < d.entries@.len() && entry_replaced(visit, #[trigger] d.entries@[j]),
    }
}

/// One visited file: same path, same shape and length, every entry slot
/// explained by a callback outcome, every other slot untouched.
pub open spec fn visited_file<F: Fn(&SourceEntry) -> Option<SourceEntry>>(
    visit: F,
    oldfile: SourcesList,
    newf: FileView,
) -> bool {
    &&& newf.path == oldfile.path@
    &&& match oldfile.entries {
        SourceListType::SourceLine(ol) => newf.entries matches ListTypeView::Lines(nl)
            && nl.len() == ol@.len() && forall|j: int|
            0 <= j < ol@.len() ==> (match ol@[j] {
                SourceLine::Entry(e) => (#[trigger] nl[j]) matches LineView::Entry(ne)
                    && visited_slot(visit, e, ne),
                _ => nl[j] == ol@[j]@,
            }),
        SourceListType::Deb822(d) => newf.entries matches ListTypeView::Deb822(ne) && ne.len()
            == d.entries@.len() && forall|j: int|
            0 <= j < d.entries@.len() ==> visited_slot(visit, d.entries@[j], #[trigger] ne[j]),
    }
}

/// The name ends in a dot followed by `ext`, with something before the dot.
pub open spec fn has_ext(name: Seq<char>, ext: Seq<char>) -> bool {
    name.len() >= ext.len() + 2 && name.skip(name.len() - ext.len() - 1) == seq!['.'] + ext
}

/// A file the scan takes: its name ends in `.list` or `.sources`.
pub open spec fn is_sources_name(name: Seq<char>) -> bool {
    has_ext(name, "list"@) || has_ext(name, "sources"@)
}

fn has_ext_exec(name: &str, ext: &str) -> (r: bool)
    ensures
        r == has_ext(name@, ext@),
{
    let n: usize = name.unicode_len();
    let m: usize = ext.unicode_len();
    if m >= n || n - m < 2 {
        return false;
    }
    let tail = name.substring_char(n - m - 1, n);
    let mut dotted = String::from_str(".");
    dotted.append(ext);
    proof {
        reveal_strlit(".");
        assert("."@ =~= seq!['.']);
        assert(tail@ =~= name@.skip(n - m - 1));
        assert(dotted@ == seq!['.'] + ext@);
    }
    text::str_eq(tail, dotted.as_str())
}

/// Selects the files a scan reads: the default list first, when it exists,
/// then every directory entry whose name ends in `.list` or `.sources`, in
/// the order given.  The caller enumerates the directory and reads the files.
pub fn sources_list_paths(default_exists: bool, default_path: &str, dir_files: &Vec<String>) -> (r:
    Vec<String>)
    ensures
        r.deep_view() == (if default_exists {
            seq![default_path@]
        } else {
            Seq::<Seq<char>>::empty()
        }) + dir_files.deep_view().filter(|n: Seq<char>| is_sources_name(n)),
{
    let mut r: Vec<String> = Vec::new();
    if default_exists {
        r.push(String::from_str(default_path));
    }
    let ghost head = r.deep_view();
    let ghost dv = dir_files.deep_view();
    let mut i: usize = 0;
    proof {
        assert(dv.take(0) =~~= Seq::<Seq<char>>::empty());
        assert(r.deep_view() =~~= head + dv.take(0).filter(|n: Seq<char>| is_sources_name(n)));
    }
    while i < dir_files.len()
        invariant
            i <= dir_files@.len(),
            dir_files.deep_view() == dv,
            r.deep_view() =~~= head + dv.take(i as int).filter(
                |n: Seq<char>| is_sources_name(n),
            ),
        decreases dir_files@.len() - i,
    {
        let ghost prev = r.deep_view();
        let take_it = has_ext_exec(dir_files[i].as_str(), "list") || has_ext_exec(
            dir_files[i].as_str(),
            "sources",
        );
        if take_it {
            r.push(String::from_str(dir_files[i].as_str()));
        }
        proof {
            assert(dv.take(i + 1) =~~= dv.take(i as int).push(dv[i as int]));
            text::lemma_filter_push(
                dv.take(i as int),
                |n: Seq<char>| is_sources_name(n),
                dv[i as int],
            );
            assert(take_it == is_sources_name(dv[i as int]));
            if take_it {
                assert(r.deep_view() =~~= prev.push(dv[i as int]));
            }
            assert(r.deep_view() =~~= head + dv.take(i + 1).filter(
                |n: Seq<char>| is_sources_name(n),
            ));
        }
        i = i + 1;
    }
    proof {
        assert(dv.take(dv.len() as int) =~~= dv);
    }
    r
}

} // verus!
