//! Locations of cached data on disk and the header stored in front of a block.

use vstd::prelude::*;
use vstd::bytes::*;
use vstd::slice::slice_subrange;
use crate::clock::unix_now_secs;
use super::checksum::{crc32, crc32_of};

verus! {

/// Magic number of the superblock and of block headers ("PING").
pub const MAGIC_NUMBER: u32 = 0x50494E47;

/// Version of the on-disk format.
pub const VERSION: u32 = 1;

/// Where an entry is stored on disk, with what is needed to check it.
#[derive(Debug, Clone, Copy, PartialEq, Eq)]
pub struct DiskLocation {
    /// Offset in bytes from the start of the device.
    pub offset: u64,
    /// Number of bytes stored.
    pub size: u32,
    /// CRC32 of the bytes stored.
    pub checksum: u32,
    /// Unix time (seconds) when the entry was written.
    pub timestamp: u64,
    /// Whether the bytes stored are compressed.
    pub compressed: bool,
    /// Size before compression (0 when not compressed).
    pub original_size: u32,
}

/// Whether an entry written at `timestamp` has outlived `ttl_secs` at `now`.
pub open spec fn expired_at(timestamp: u64, ttl_secs: u64, now: u64) -> bool {
    now >= timestamp && now - timestamp > ttl_secs
}

impl DiskLocation {
    /// The location of `data` stored uncompressed at `offset`, written at
    /// `timestamp`.
    pub fn new_at(offset: u64, data: &[u8], timestamp: u64) -> (l: DiskLocation)
        ensures
            l == (DiskLocation {
                offset,
                size: data@.len() as u32,
                checksum: crc32_of(data@),
                timestamp,
                compressed: false,
                original_size: 0,
            }),
    {
        DiskLocation {
            offset,
            size: #[verifier::truncate] (data.len() as u32),
            checksum: crc32(data),
            timestamp,
            compressed: false,
            original_size: 0,
        }
    }

    /// The location of `data` stored uncompressed at `offset`, written now.
    pub fn new(offset: u64, data: &[u8]) -> (l: DiskLocation)
        ensures
            l.offset == offset,
            l.size == data@.len() as u32,
            l.checksum == crc32_of(data@),
            !l.compressed,
            l.original_size == 0,
    {
        Self::new_at(offset, data, unix_now_secs())
    }

    /// The location of compressed `data` at `offset`, whose uncompressed
    /// size was `original_size`, written at `timestamp`.
    pub fn new_compressed_at(offset: u64, data: &[u8], original_size: u32, timestamp: u64) -> (l:
        DiskLocation)
        ensures
            l == (DiskLocation {
                offset,
                size: data@.len() as u32,
                checksum: crc32_of(data@),
                timestamp,
                compressed: true,
                original_size,
            }),
    {
        DiskLocation {
            offset,
            size: #[verifier::truncate] (data.len() as u32),
            checksum: crc32(data),
            timestamp,
            compressed: true,
            original_size,
        }
    }

    /// The location of compressed `data` at `offset`, written now.
    pub fn new_compressed(offset: u64, data: &[u8], original_size: u32) -> (l: DiskLocation)
        ensures
            l.offset == offset,
            l.size == data@.len() as u32,
            l.checksum == crc32_of(data@),
            l.compressed,
            l.original_size == original_size,
    {
        Self::new_compressed_at(offset, data, original_size, unix_now_secs())
    }

    /// Whether `data` matches the stored checksum.
    pub fn verify_checksum(&self, data: &[u8]) -> (b: bool)
        ensures
            b == (crc32_of(data@) == self.checksum),
    {
        crc32(data) == self.checksum
    }

    /// Whether the entry has outlived `ttl_secs` at time `now`; an entry
    /// stamped later than `now` has not.
    pub fn is_expired_at(&self, ttl_secs: u64, now: u64) -> (b: bool)
        ensures
            b == expired_at(self.timestamp, ttl_secs, now),
    {
        now >= self.timestamp && now - self.timestamp > ttl_secs
    }

    /// Whether the entry has outlived `ttl_secs` now.
    pub fn is_expired(&self, ttl_secs: u64) -> (b: bool)
        ensures
            exists|now: u64| b == expired_at(self.timestamp, ttl_secs, now),
    {
        self.is_expired_at(ttl_secs, unix_now_secs())
    }
}

/// Header stored in front of a block on disk.
#[derive(Debug, Clone, Copy)]
pub struct BlockHeader {
    /// Magic number for validation.
    pub magic: u32,
    /// Hash of the key.
    pub key_hash: u64,
    /// Size of the data.
    pub data_size: u32,
    /// CRC32 of the data.
    pub checksum: u32,
    /// Unix time of the write.
    pub timestamp: u64,
    /// Offset of the next block (for large objects).
    pub next_block: u64,
    /// Reserved bytes.
    pub reserved: [u8; 28],
}

/// Size of an encoded block header in bytes.
pub const BLOCK_HEADER_SIZE: usize = 64;

/// The 64 bytes of an encoded header: little-endian fields in declaration
/// order, then the reserved bytes.
pub open spec fn header_bytes(h: BlockHeader) -> Seq<u8> {
    spec_u32_to_le_bytes(h.magic) + spec_u64_to_le_bytes(h.key_hash) + spec_u32_to_le_bytes(
        h.data_size,
    ) + spec_u32_to_le_bytes(h.checksum) + spec_u64_to_le_bytes(h.timestamp)
        + spec_u64_to_le_bytes(h.next_block) + h.reserved@
}

/// The header that `from_bytes` reads from `b`: `None` when `b` is shorter
/// than a header or does not start with the magic number.
pub open spec fn parse_header(b: Seq<u8>) -> Option<BlockHeader> {
    if b.len() < 64 || spec_u32_from_le_bytes(b.subrange(0, 4)) != MAGIC_NUMBER {
        None
    } else {
        Some(
            BlockHeader {
                magic: spec_u32_from_le_bytes(b.subrange(0, 4)),
                key_hash: spec_u64_from_le_bytes(b.subrange(4, 12)),
                data_size: spec_u32_from_le_bytes(b.subrange(12, 16)),
                checksum: spec_u32_from_le_bytes(b.subrange(16, 20)),
                timestamp: spec_u64_from_le_bytes(b.subrange(20, 28)),
                next_block: spec_u64_from_le_bytes(b.subrange(28, 36)),
                reserved: arbitrary_reserved(b.subrange(36, 64)),
            },
        )
    }
}

/// The reserved array that holds exactly the bytes `s`.
pub open spec fn arbitrary_reserved(s: Seq<u8>) -> [u8; 28] {
    choose|a: [u8; 28]| a@ == s
}

/// Whether two headers hold the same fields.
pub open spec fn same_header(a: BlockHeader, b: BlockHeader) -> bool {
    &&& a.magic == b.magic
    &&& a.key_hash == b.key_hash
    &&& a.data_size == b.data_size
    &&& a.checksum == b.checksum
    &&& a.timestamp == b.timestamp
    &&& a.next_block == b.next_block
    &&& a.reserved@ == b.reserved@
}

impl BlockHeader {
    /// A header for data of `data_size` bytes with `checksum`, stamped at
    /// `timestamp`.
    pub fn new_at(key_hash: u64, data_size: u32, checksum: u32, timestamp: u64) -> (h: BlockHeader)
        ensures
            h.magic == MAGIC_NUMBER,
            h.key_hash == key_hash,
            h.data_size == data_size,
            h.checksum == checksum,
            h.timestamp == timestamp,
            h.next_block == 0,
            h.reserved@ == Seq::new(28, |i: int| 0u8),
    {
        let h = BlockHeader {
            magic: MAGIC_NUMBER,
            key_hash,
            data_size,
            checksum,
            timestamp,
            next_block: 0,
            reserved: [0u8; 28],
        };
        assert(h.reserved@ =~= Seq::new(28, |i: int| 0u8));
        h
    }

    /// A header for data of `data_size` bytes with `checksum`, stamped now.
    pub fn new(key_hash: u64, data_size: u32, checksum: u32) -> (h: BlockHeader)
        ensures
            h.magic == MAGIC_NUMBER,
            h.key_hash == key_hash,
            h.data_size == data_size,
            h.checksum == checksum,
            h.next_block == 0,
            h.reserved@ == Seq::new(28, |i: int| 0u8),
    {
        Self::new_at(key_hash, data_size, checksum, unix_now_secs())
    }

    /// The 64-byte encoding of the header.
    pub fn to_bytes(&self) -> (b: Vec<u8>)
        ensures
            b@ == header_bytes(*self),
            b@.len() == BLOCK_HEADER_SIZE,
    {
        let mut bytes: Vec<u8> = Vec::with_capacity(BLOCK_HEADER_SIZE);
        let mut part = u32_to_le_bytes(self.magic);
        bytes.append(&mut part);
        let mut part = u64_to_le_bytes(self.key_hash);
        bytes.append(&mut part);
        let mut part = u32_to_le_bytes(self.data_size);
        bytes.append(&mut part);
        let mut part = u32_to_le_bytes(self.checksum);
        bytes.append(&mut part);
        let mut part = u64_to_le_bytes(self.timestamp);
        bytes.append(&mut part);
        let mut part = u64_to_le_bytes(self.next_block);
        bytes.append(&mut part);
        let mut i: usize = 0;
        let ghost prefix = bytes@;
        while i < 28
            invariant
                i <= 28,
                prefix.len() == 36,
                bytes@ == prefix + self.reserved@.take(i as int),
            decreases 28 - i,
        {
            bytes.push(self.reserved[i]);
            assert(self.reserved@.take(i as int).push(self.reserved@[i as int]) =~= self.reserved@.take(i + 1));
            i = i + 1;
        }
        assert(self.reserved@.take(28) =~= self.reserved@);
        assert(bytes@ =~= header_bytes(*self));
        bytes
    }

    /// Decodes a header; `None` when `bytes` is shorter than a header or does
    /// not start with the magic number.
    pub fn from_bytes(bytes: &[u8]) -> (r: Option<BlockHeader>)
        ensures
            r is None <==> parse_header(bytes@) is None,
            r is Some ==> same_header(r->Some_0, parse_header(bytes@)->Some_0),
    {
        if bytes.len() < BLOCK_HEADER_SIZE {
            return None;
        }
        let magic = u32_from_le_bytes(slice_subrange(bytes, 0, 4));
        if magic != MAGIC_NUMBER {
            return None;
        }
        let key_hash = u64_from_le_bytes(slice_subrange(bytes, 4, 12));
        let data_size = u32_from_le_bytes(slice_subrange(bytes, 12, 16));
        let checksum = u32_from_le_bytes(slice_subrange(bytes, 16, 20));
        let timestamp = u64_from_le_bytes(slice_subrange(bytes, 20, 28));
        let next_block = u64_from_le_bytes(slice_subrange(bytes, 28, 36));
        let mut reserved = [0u8; 28];
        let mut i: usize = 0;
        while i < 28
            invariant
                i <= 28,
                bytes@.len() >= 64,
                forall|j: int| 0 <= j < i ==> reserved@[j] == bytes@[36 + j],
            decreases 28 - i,
        {
            reserved[i] = bytes[36 + i];
            i = i + 1;
        }
        let h = BlockHeader { magic, key_hash, data_size, checksum, timestamp, next_block, reserved };
        proof {
            let p = parse_header(bytes@)->Some_0;
            assert(reserved@ =~= bytes@.subrange(36, 64));
            assert(exists|a: [u8; 28]| a@ == bytes@.subrange(36, 64));
        }
        Some(h)
    }
}

/// Whether `data` is what the block's header says was written: its CRC32
/// matches the header's checksum.
pub fn block_data_intact(header: &BlockHeader, data: &[u8]) -> (ok: bool)
    ensures
        ok == (crc32_of(data@) == header.checksum),
{
    crc32(data) == header.checksum
}

/// Decoding the encoding of a header gives back the same fields, when the
/// header carries the magic number.
pub proof fn law_header_roundtrip(h: BlockHeader)
    requires
        h.magic == MAGIC_NUMBER,
    ensures
        parse_header(header_bytes(h)) is Some,
        same_header(parse_header(header_bytes(h))->Some_0, h),
{
    lemma_auto_spec_u32_to_from_le_bytes();
    lemma_auto_spec_u64_to_from_le_bytes();
    let b = header_bytes(h);
    assert(b.subrange(0, 4) =~= spec_u32_to_le_bytes(h.magic));
    assert(b.subrange(4, 12) =~= spec_u64_to_le_bytes(h.key_hash));
    assert(b.subrange(12, 16) =~= spec_u32_to_le_bytes(h.data_size));
    assert(b.subrange(16, 20) =~= spec_u32_to_le_bytes(h.checksum));
    assert(b.subrange(20, 28) =~= spec_u64_to_le_bytes(h.timestamp));
    assert(b.subrange(28, 36) =~= spec_u64_to_le_bytes(h.next_block));
    assert(b.subrange(36, 64) =~= h.reserved@);
    assert(exists|a: [u8; 28]| a@ == b.subrange(36, 64));
}

} // verus!
