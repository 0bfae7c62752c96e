//! An embedded persistent table store: named tables with dynamically declared
//! columns, rows addressed by string identifiers, a write-ahead log for
//! durability, immutable sorted segments produced by flushing the in-memory
//! buffer, and compaction that merges segments while keeping the newest value
//! for every row.
//!
//! All file handling lives outside this crate; the library works on plain
//! values (lines of text in, lines of text out) so that every rule of the
//! store is stated and proved here.

pub mod assoc;
pub mod commands;
pub mod csv;
pub mod db;
pub mod memtable;
pub mod payload;
pub mod recovery;
pub mod row;
pub mod schema;
pub mod segment;
pub mod strutil;
pub mod table;
pub mod wal;
