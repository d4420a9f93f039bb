//! Bookmark picking: a bookmarks document is flattened into a list of named links, the names are
//! offered to an interactive picker, and the picker's answer is mapped back to a link.

pub mod bookmarks;
pub mod config;
pub mod select;
pub mod value;
