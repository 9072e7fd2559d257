//! An embedded vector store: an append-only, CRC-checked data log paired with
//! a fixed-width vector file, an in-memory index with slot reuse, crash
//! recovery by log scan, and offline compaction.
//!
//! This crate holds the storage engine's logic: the on-disk formats, the
//! in-memory state and every state transition, each with a proved contract.
//! Vector components are carried as IEEE-754 single-precision bit patterns
//! (`u32`), and both files are modelled as byte images; the thin layer that
//! owns real file handles, locks and threads lives outside the library and
//! replays the byte-level effects the library hands it.

pub mod checksum;
pub mod errors;
pub mod format;
pub mod index;
pub mod json;
pub mod record;
pub mod search;
pub mod store;
pub mod text;
