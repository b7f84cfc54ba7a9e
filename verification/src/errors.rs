use vstd::prelude::*;

verus! {

/// Failure to acquire the exclusive advisory lock on the backing file.
///
/// `DatabaseAlreadyOpen` means another handle holds the lock; `Io` covers any
/// other fault from the operating system while locking, reading or writing.
#[derive(Debug, Clone, Copy, PartialEq, Eq)]
#[non_exhaustive]
pub enum LockedFileError {
    DatabaseAlreadyOpen,
    Io,
}

/// The closed set of failures the store surfaces.
#[derive(Debug, Clone, PartialEq, Eq)]
#[non_exhaustive]
pub enum StorageError {
    /// Another process (or handle) holds the exclusive file lock.
    DatabaseAlreadyOpen,
    /// An I/O or OS fault, surfaced from the file layer.
    Io,
    /// Checksum mismatch, magic mismatch, or an unreachable invariant on disk.
    Corrupted,
    /// A key or value exceeded the per-entry cap; carries the offending size.
    ValueTooLarge(usize),
    /// A table was opened with a codec fingerprint pair differing from the one
    /// it was created with.
    TableTypeMismatch {
        expected_key: u64,
        expected_value: u64,
        actual_key: u64,
        actual_value: u64,
    },
    /// The on-disk format version is newer than this implementation supports.
    UpgradeRequired(u32),
}

impl From<LockedFileError> for StorageError {
    fn from(value: LockedFileError) -> (r: StorageError) {
        match value {
            LockedFileError::DatabaseAlreadyOpen => StorageError::DatabaseAlreadyOpen,
            LockedFileError::Io => StorageError::Io,
        }
    }
}

impl vstd::std_specs::convert::FromSpecImpl<LockedFileError> for StorageError {
    open spec fn obeys_from_spec() -> bool {
        true
    }

    open spec fn from_spec(value: LockedFileError) -> StorageError {
        match value {
            LockedFileError::DatabaseAlreadyOpen => StorageError::DatabaseAlreadyOpen,
            LockedFileError::Io => StorageError::Io,
        }
    }
}

} // verus!
