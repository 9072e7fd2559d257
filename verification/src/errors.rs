//! The error type shared by every operation of the store.

use vstd::prelude::*;

verus! {

/// Everything that can go wrong in the store or in the file layer around it.
#[derive(Debug, Clone)]
pub enum DbError {
    /// A filesystem error, carried as its message. The library itself never
    /// constructs this variant; the file layer around it does.
    Io(String),
    /// Metadata that is not a valid JSON document.
    Serialization(String),
    /// Bad magic, unsupported version, a checksum mismatch, an invalid UTF-8
    /// key, or a log record pointing past the end of the vector file.
    Corruption(String),
    /// A vector or query whose length differs from the store's dimension,
    /// or a vector file whose recorded dimension differs from the caller's.
    DimensionMismatch { expected: u32, got: u32 },
    /// The key is absent or logically deleted.
    NotFound(String),
    /// A prior operation aborted while holding the lock.
    LockPoisoned,
    /// A vector with a NaN or infinite component.
    InvalidVector(String),
    /// A file handle was used after being closed.
    FileNotOpen,
    /// An invalid dimension or compaction threshold.
    ConfigError(String),
}

} // verus!
