//! A log-structured key/value store whose immutable segments are indexed by
//! finite-state-transducer maps.
//!
//! Writes land in a sorted memtable, which is sealed into a segment once it
//! holds `segment_size` rows. Reads consult the memtable first and then the
//! segments from newest to oldest. Segments are merged with a newer-wins
//! rule. On top of the columns, four layouts give a plain map, a unique
//! two-way index, a value-to-many-keys index and a dictionary of interned
//! values.
//!
//! The library holds its data in memory and does no input or output: a
//! store is opened from the contents of the files of its directory and
//! hands the contents of its segment files out again.
//!
//! From the bottom up:
//! - `bytes`: byte strings in lexicographic order, prefixes and their upper bound;
//! - `values`: the values log of length-prefixed records;
//! - `index`: the key-to-offset index of a segment, kept by the `fst` crate;
//! - `names`: the names of segment files;
//! - `memtable`, `segment`, `merge`, `column`: one keyspace;
//! - `compactor`: the mailbox of the compaction worker;
//! - `layout`, `model`, `codec`, `options`, `progress`, `store`: the typed store;
//! - `types`: the keys and values of an indexer;
//! - `laws`, `recovery`: what holds of the layouts and of a store that is opened again.

pub mod bytes;
pub mod codec;
pub mod column;
pub mod compactor;
pub mod error;
pub mod index;
pub mod laws;
pub mod layout;
pub mod memtable;
pub mod merge;
pub mod model;
pub mod names;
pub mod options;
pub mod progress;
pub mod recovery;
pub mod segment;
pub mod store;
pub mod types;
pub mod values;
