//! Per-handle cursors over one shared file, and the rules that decide where
//! each entry of an archive is written when entries are extracted in parallel.

pub mod cursor;
pub mod entry_path;
pub mod extraction;
