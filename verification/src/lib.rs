//! A directory-tree visualizer's core: the path filter, the parent index that
//! regroups a flat list of discovered entries, and the renderer that turns the
//! index into tree lines or full-path lines.

pub mod path;
pub mod filter;
pub mod entry;
pub mod index;
pub mod printer;
pub mod run;
