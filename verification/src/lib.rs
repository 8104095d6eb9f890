//! Persistence layer of a log-structured key-value store.
//!
//! The crate covers the two durable artifacts of the store: the immutable,
//! sorted on-disk run ("SSTable") that memtable flushes are serialized into,
//! and the write-ahead-log command protocol that sequences every mutation.
//! All encoding, decoding and lookup logic is verified; file I/O is left to
//! the surrounding application, which hands byte images in and out.

use vstd::prelude::*;

pub mod lex;
pub mod text;
pub mod value;
pub mod record;
pub mod sstable;
pub mod wal;

verus! {

/// Errors of the storage layer.  I/O failures never arise here: the library
/// works on in-memory byte images, and the caller that touches the file
/// system reports its own I/O errors unchanged.
#[derive(Clone, Copy, Debug, PartialEq, Eq, Structural)]
pub enum StoreError {
    /// An input the encoder refuses up front: an empty entry sequence, or a
    /// count or length that does not fit its fixed-width field.
    InvalidInput,
    /// Fewer well-formed bytes are present than the structure declares; the
    /// file is corrupted or was cut short.
    Truncated,
    /// Bytes that are structurally complete but meaningless: a bad record
    /// tag, key bytes that are not UTF-8, or metadata that contradicts the
    /// entries.
    InvalidData,
    /// A command was submitted to a log writer that has already shut down.
    Stopped,
}

} // verus!
