//! The superblock: the first 4 KiB of the device, describing its layout.

use vstd::prelude::*;
use vstd::bytes::*;
use vstd::slice::slice_subrange;
use super::types::{MAGIC_NUMBER, VERSION};
use super::RawDiskError;

verus! {

/// Layout of the cache device.
#[derive(Debug, Clone, Copy, PartialEq, Eq)]
pub struct Superblock {
    magic: u32,
    version: u32,
    block_size: u32,
    total_size: u64,
    metadata_offset: u64,
    metadata_size: u64,
    data_offset: u64,
}

/// Size of the superblock area in bytes.
pub const SUPERBLOCK_SIZE: usize = 4096;

/// Bytes reserved for metadata on a device of `total_size` bytes: 1% of
/// it, at least 64 KiB and at most 100 MiB.
pub open spec fn metadata_size_for(total_size: u64) -> u64 {
    let pct = total_size / 100;
    let at_least = if pct >= 65536 {
        pct
    } else {
        65536
    };
    if at_least <= 104857600 {
        at_least
    } else {
        104857600
    }
}

/// The encoded superblock: its fields in little-endian order, zero-padded
/// to 4 KiB.
pub open spec fn superblock_bytes(s: Superblock) -> Seq<u8> {
    spec_u32_to_le_bytes(s.spec_magic()) + spec_u32_to_le_bytes(s.spec_version())
        + spec_u32_to_le_bytes(s.spec_block_size()) + spec_u64_to_le_bytes(s.spec_total_size())
        + spec_u64_to_le_bytes(s.spec_metadata_offset()) + spec_u64_to_le_bytes(
        s.spec_metadata_size(),
    ) + spec_u64_to_le_bytes(s.spec_data_offset()) + Seq::new(
        4052,
        |i: int| 0u8,
    )
}

/// Whether `s` holds the fields encoded in the first 44 bytes of `b`.
pub open spec fn decodes_to(b: Seq<u8>, s: Superblock) -> bool {
    &&& s.spec_magic() == spec_u32_from_le_bytes(b.subrange(0, 4))
    &&& s.spec_version() == spec_u32_from_le_bytes(b.subrange(4, 8))
    &&& s.spec_block_size() == spec_u32_from_le_bytes(b.subrange(8, 12))
    &&& s.spec_total_size() == spec_u64_from_le_bytes(b.subrange(12, 20))
    &&& s.spec_metadata_offset() == spec_u64_from_le_bytes(b.subrange(20, 28))
    &&& s.spec_metadata_size() == spec_u64_from_le_bytes(b.subrange(28, 36))
    &&& s.spec_data_offset() == spec_u64_from_le_bytes(b.subrange(36, 44))
}

impl Superblock {
    /// Magic number.
    pub closed spec fn spec_magic(&self) -> u32 {
        self.magic
    }

    /// Format version.
    pub closed spec fn spec_version(&self) -> u32 {
        self.version
    }

    /// Size of a block.
    pub closed spec fn spec_block_size(&self) -> u32 {
        self.block_size
    }

    /// Size of the device.
    pub closed spec fn spec_total_size(&self) -> u64 {
        self.total_size
    }

    /// Where the metadata area starts.
    pub closed spec fn spec_metadata_offset(&self) -> u64 {
        self.metadata_offset
    }

    /// Size of the metadata area.
    pub closed spec fn spec_metadata_size(&self) -> u64 {
        self.metadata_size
    }

    /// Where the data area starts.
    pub closed spec fn spec_data_offset(&self) -> u64 {
        self.data_offset
    }

    /// Number of whole blocks in the data area.
    pub open spec fn spec_total_blocks(&self) -> int {
        if self.spec_total_size() <= self.spec_data_offset() {
            0
        } else {
            (self.spec_total_size() - self.spec_data_offset()) / (self.spec_block_size() as int)
        }
    }

    /// A superblock for a device of `total_size` bytes and blocks of
    /// `block_size` bytes: the superblock itself, then the metadata area,
    /// then the data area.
    pub fn new(total_size: u64, block_size: u32) -> (s: Superblock)
        ensures
            s.spec_magic() == MAGIC_NUMBER,
            s.spec_version() == VERSION,
            s.spec_block_size() == block_size,
            s.spec_total_size() == total_size,
            s.spec_metadata_offset() == SUPERBLOCK_SIZE,
            s.spec_metadata_size() == metadata_size_for(total_size),
            s.spec_data_offset() == SUPERBLOCK_SIZE + metadata_size_for(total_size),
    {
        let metadata_offset = SUPERBLOCK_SIZE as u64;
        let pct = total_size / 100;
        let at_least = if pct >= 65536 {
            pct
        } else {
            65536
        };
        let metadata_size = if at_least <= 104857600 {
            at_least
        } else {
            104857600
        };
        let data_offset = metadata_offset + metadata_size;
        Superblock {
            magic: MAGIC_NUMBER,
            version: VERSION,
            block_size,
            total_size,
            metadata_offset,
            metadata_size,
            data_offset,
        }
    }

    /// Number of whole blocks in the data area.
    pub fn total_blocks(&self) -> (n: u64)
        requires
            self.spec_total_size() > self.spec_data_offset() ==> self.spec_block_size() > 0,
        ensures
            n == self.spec_total_blocks(),
    {
        if self.total_size <= self.data_offset {
            return 0;
        }
        (self.total_size - self.data_offset) / (self.block_size as u64)
    }

    /// Size of a block.
    pub fn block_size(&self) -> (b: u32)
        ensures
            b == self.spec_block_size(),
    {
        self.block_size
    }

    /// Where the metadata area starts.
    pub fn metadata_offset(&self) -> (o: u64)
        ensures
            o == self.spec_metadata_offset(),
    {
        self.metadata_offset
    }

    /// Size of the metadata area.
    pub fn metadata_size(&self) -> (o: u64)
        ensures
            o == self.spec_metadata_size(),
    {
        self.metadata_size
    }

    /// Where the data area starts.
    pub fn data_offset(&self) -> (o: u64)
        ensures
            o == self.spec_data_offset(),
    {
        self.data_offset
    }

    /// The 4 KiB that are written at the start of the device.
    pub fn to_bytes(&self) -> (b: Vec<u8>)
        ensures
            b@ == superblock_bytes(*self),
            b@.len() == SUPERBLOCK_SIZE,
    {
        let mut data: Vec<u8> = Vec::with_capacity(SUPERBLOCK_SIZE);
        let mut part = u32_to_le_bytes(self.magic);
        data.append(&mut part);
        let mut part = u32_to_le_bytes(self.version);
        data.append(&mut part);
        let mut part = u32_to_le_bytes(self.block_size);
        data.append(&mut part);
        let mut part = u64_to_le_bytes(self.total_size);
        data.append(&mut part);
        let mut part = u64_to_le_bytes(self.metadata_offset);
        data.append(&mut part);
        let mut part = u64_to_le_bytes(self.metadata_size);
        data.append(&mut part);
        let mut part = u64_to_le_bytes(self.data_offset);
        data.append(&mut part);
        let ghost prefix = data@;
        let mut i: usize = 44;
        while i < SUPERBLOCK_SIZE
            invariant
                44 <= i <= SUPERBLOCK_SIZE,
                prefix.len() == 44,
                data@ == prefix + Seq::new((i - 44) as nat, |j: int| 0u8),
            decreases SUPERBLOCK_SIZE - i,
        {
            data.push(0u8);
            assert(Seq::new((i - 44) as nat, |j: int| 0u8).push(0u8) =~= Seq::new(
                (i + 1 - 44) as nat,
                |j: int| 0u8,
            ));
            i = i + 1;
        }
        assert(data@ =~= superblock_bytes(*self));
        data
    }

    /// Reads a superblock from the bytes at the start of the device.
    ///
    /// Fewer than 32 bytes, or a wrong magic number, give
    /// `InvalidSuperblock`.
    pub fn from_bytes(data: &[u8]) -> (r: Result<Superblock, RawDiskError>)
        requires
            data@.len() < 32 || data@.len() >= 44,
        ensures
            (data@.len() < 32 || spec_u32_from_le_bytes(data@.subrange(0, 4)) != MAGIC_NUMBER)
                <==> r is Err,
            r is Err ==> r->Err_0 is InvalidSuperblock,
            r is Ok ==> decodes_to(data@, r->Ok_0),
    {
        if data.len() < 32 {
            return Err(RawDiskError::InvalidSuperblock);
        }
        let magic = u32_from_le_bytes(slice_subrange(data, 0, 4));
        if magic != MAGIC_NUMBER {
            return Err(RawDiskError::InvalidSuperblock);
        }
        let version = u32_from_le_bytes(slice_subrange(data, 4, 8));
        let block_size = u32_from_le_bytes(slice_subrange(data, 8, 12));
        let total_size = u64_from_le_bytes(slice_subrange(data, 12, 20));
        let metadata_offset = u64_from_le_bytes(slice_subrange(data, 20, 28));
        let metadata_size = u64_from_le_bytes(slice_subrange(data, 28, 36));
        let data_offset = u64_from_le_bytes(slice_subrange(data, 36, 44));
        Ok(
            Superblock {
                magic,
                version,
                block_size,
                total_size,
                metadata_offset,
                metadata_size,
                data_offset,
            },
        )
    }
}

/// Reading back what was written: decoding the encoding of a superblock
/// that carries the magic number gives the same superblock.
pub proof fn law_superblock_roundtrip(s: Superblock)
    requires
        s.spec_magic() == MAGIC_NUMBER,
    ensures
        superblock_bytes(s).len() == SUPERBLOCK_SIZE,
        spec_u32_from_le_bytes(superblock_bytes(s).subrange(0, 4)) == MAGIC_NUMBER,
        forall|t: Superblock| decodes_to(superblock_bytes(s), t) ==> t == s,
{
    lemma_auto_spec_u32_to_from_le_bytes();
    lemma_auto_spec_u64_to_from_le_bytes();
    let b = superblock_bytes(s);
    assert(b.subrange(0, 4) =~= spec_u32_to_le_bytes(s.magic));
    assert(b.subrange(4, 8) =~= spec_u32_to_le_bytes(s.version));
    assert(b.subrange(8, 12) =~= spec_u32_to_le_bytes(s.block_size));
    assert(b.subrange(12, 20) =~= spec_u64_to_le_bytes(s.total_size));
    assert(b.subrange(20, 28) =~= spec_u64_to_le_bytes(s.metadata_offset));
    assert(b.subrange(28, 36) =~= spec_u64_to_le_bytes(s.metadata_size));
    assert(b.subrange(36, 44) =~= spec_u64_to_le_bytes(s.data_offset));
}

} // verus!
