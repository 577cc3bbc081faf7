//! The edits of a document: adding an entry, removing an alias, listing
//! the entries.

pub mod add;
pub mod list;
pub mod remove;

