//! Raw disk cache: block allocation, directory, on-disk layout and the
//! bookkeeping of the cache that stores slices on a raw device.

pub mod allocator;
pub mod batch_io;
pub mod checksum;
pub mod compression;
pub mod defrag;
pub mod directory;
pub mod disk_io;
pub mod gc;
pub mod io_uring;
pub mod metrics;
pub mod prefetch;
pub mod superblock;
pub mod state;
pub mod types;
pub mod zero_copy;

use vstd::prelude::*;

verus! {

/// `std::io::Error`, carried through the library unchanged.
#[verifier::external_type_specification]
#[verifier::external_body]
pub struct ExIoError(std::io::Error);

/// Errors of the raw disk cache.
#[derive(Debug)]
pub enum RawDiskError {
    /// A failed read or write of the device.
    Io(std::io::Error),
    /// No run of free blocks is long enough.
    NoSpace,
    /// A block size that cannot be used.
    InvalidBlockSize,
    /// Metadata that could not be encoded or decoded.
    SerializationError(String),
    /// Metadata that decoded but cannot be used.
    InvalidMetadata(String),
    /// Metadata that does not fit in the space reserved for it.
    MetadataTooLarge { size: usize, max_size: usize },
    /// Data whose checksum does not match.
    ChecksumMismatch,
    /// A superblock that is missing or damaged.
    InvalidSuperblock,
    /// A block range that cannot be allocated.
    AllocationError(String),
    /// A failed compression or decompression.
    CompressionError(String),
}

/// The kind of I/O that the cache uses.
#[derive(Debug, Clone, Copy, PartialEq, Eq)]
pub enum IOBackend {
    /// Standard asynchronous file I/O.
    Standard,
    /// io_uring (Linux).
    IoUring,
}

} // verus!
