//! Core of an embedded, single-file, copy-on-write transactional key-value
//! store: a file capability with an in-memory implementation, a positional
//! page store with two checksummed superblock slots, ordered tables over
//! byte keys and values, and snapshot-isolated transactions whose commits
//! are atomic against crashes.

pub mod bytes;
pub mod checksum;
pub mod db;
pub mod errors;
pub mod file;
pub mod laws;
pub mod seqs;
pub mod state;
pub mod superblock;
pub mod table;
pub mod tree;

pub use db::{Database, ReadTransaction, WriteTransaction};
pub use errors::{LockedFileError, StorageError};
pub use file::{File, MemoryFile, MemoryFs, MemoryLockFile, Metadata};
pub use table::{AccessGuard, AccessGuardMut, Drain, DrainFilter, Range, ReadOnlyTable, Table, MAX_VALUE_LENGTH};
