//! Parsing, mutation and serialization of Debian-style package repository
//! source definitions.
//!
//! Two on-disk formats are supported: the classic one-line `sources.list`
//! style and the structured multi-field `deb822` style.  Both are parsed into
//! a unified [`source_entry::SourceEntry`] representation; an aggregate model
//! tracks which files were changed in memory so that only those are written
//! back.  All reading and writing of actual files is left to the caller, who
//! hands text in and receives rendered text back.

pub mod text;
pub mod errors;
pub mod signature;
pub mod source_entry;
pub mod source_line;
pub mod source_deb822;
pub mod sources_list;
pub mod laws;

pub use errors::SourceError;
pub use errors::SourcesListError;
pub use signature::Signature;
pub use source_entry::SourceEntry;
pub use source_line::SourceLine;
pub use source_deb822::SourceListDeb822;
pub use sources_list::SourceListType;
pub use sources_list::SourcesList;
pub use sources_list::SourcesLists;
