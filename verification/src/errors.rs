//! Error types for parsing and editing apt source lists.

use vstd::prelude::*;

verus! {

/// Mathematical model of a [`SourceError`].
pub enum SourceErrorView {
    Io { why: Seq<char> },
    MissingField { field: Seq<char> },
    InvalidValue { field: Seq<char>, value: Seq<char> },
    EntryNotFound,
    EntryWrite { path: Seq<char>, why: Seq<char> },
    FileNotFound,
    SyntaxError { why: Seq<char> },
}

/// An error that may occur when parsing apt sources.
#[derive(Debug, Clone)]
pub enum SourceError {
    /// An input/output failure, described in text.  The in-memory operations
    /// of this crate never produce it; it is for callers that do the actual
    /// file handling.
    Io { why: String },
    /// A required field of an apt source entry was absent.
    MissingField { field: String },
    /// A field held a value that is not allowed for it.
    InvalidValue { field: String, value: String },
    /// The entry did not exist in the sources.
    EntryNotFound,
    /// Writing changes to the file at `path` failed.
    EntryWrite { path: String, why: String },
    /// The source file was not found.
    FileNotFound,
    /// The text violates the deb822 grammar.
    SyntaxError { why: String },
}

impl View for SourceError {
    type V = SourceErrorView;

    open spec fn view(&self) -> SourceErrorView {
        match self {
            SourceError::Io { why } => (SourceErrorView::Io { why: why@ }),
            SourceError::MissingField { field } => (SourceErrorView::MissingField {
                field: field@,
            }),
            SourceError::InvalidValue { field, value } => (SourceErrorView::InvalidValue {
                field: field@,
                value: value@,
            }),
            SourceError::EntryNotFound => SourceErrorView::EntryNotFound,
            SourceError::EntryWrite { path, why } => (SourceErrorView::EntryWrite {
                path: path@,
                why: why@,
            }),
            SourceError::FileNotFound => SourceErrorView::FileNotFound,
            SourceError::SyntaxError { why } => (SourceErrorView::SyntaxError { why: why@ }),
        }
    }
}

/// Mathematical model of a [`SourcesListError`].
pub enum SourcesListErrorView {
    BadLine { line: int, why: SourceErrorView },
    SourcesListOpen { path: Seq<char>, why: Seq<char> },
    Deb822 { path: Seq<char>, why: SourceErrorView },
    UnknownFile { path: Seq<char> },
    Io { why: Seq<char> },
}

/// An error from parsing or loading a whole source-list file.
#[derive(Debug, Clone)]
pub enum SourcesListError {
    /// A line of a line-style file could not be parsed: its 0-based index
    /// and the cause.
    BadLine { line: usize, why: SourceError },
    /// Opening a source list failed.
    SourcesListOpen { path: String, why: String },
    /// A deb822-style file could not be parsed.
    Deb822 { path: String, why: SourceError },
    /// The file is of no format this crate knows.
    UnknownFile { path: String },
    /// Any other input/output failure.
    Io { why: String },
}

impl View for SourcesListError {
    type V = SourcesListErrorView;

    open spec fn view(&self) -> SourcesListErrorView {
        match self {
            SourcesListError::BadLine { line, why } => (SourcesListErrorView::BadLine {
                line: *line as int,
                why: why@,
            }),
            SourcesListError::SourcesListOpen { path, why } => (
            SourcesListErrorView::SourcesListOpen { path: path@, why: why@ }),
            SourcesListError::Deb822 { path, why } => (SourcesListErrorView::Deb822 {
                path: path@,
                why: why@,
            }),
            SourcesListError::UnknownFile { path } => (SourcesListErrorView::UnknownFile {
                path: path@,
            }),
            SourcesListError::Io { why } => (SourcesListErrorView::Io { why: why@ }),
        }
    }
}

} // verus!
