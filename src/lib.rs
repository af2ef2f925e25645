//! Codec for PackFile game-data archives: a binary container of named payloads,
//! the schema-driven codec of its tables, and the folder tree derived from its
//! paths.
//!
//! - `bytes`: the binary cursor, little-endian reads and writes.
//! - `container`: the archive format, its decoder and encoder.
//! - `edit`: adding, deleting, renaming and merging entries.
//! - `tree`: what a path names, and the folder tree of an archive.
//! - `table`, `schema`: table definitions, their registry, and the row codec.
//! - `payload`, `rigid`: the kind of an entry's payload, localisation tables and
//!   rigid models.
//!
//! Paths and UTF-16 strings are kept as the code units they are stored as.

use vstd::prelude::*;

pub mod bytes;
pub mod container;
pub mod edit;
pub mod error;
pub mod path;
pub mod payload;
pub mod rigid;
pub mod schema;
pub mod table;
pub mod tree;

verus! {

} // verus!
