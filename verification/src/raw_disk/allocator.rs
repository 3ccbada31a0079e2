//! Block allocator: a bitmap of free blocks with first-fit allocation of
//! contiguous runs.

use vstd::prelude::*;
use bitvec::prelude::BitVec;
use super::RawDiskError;
use super::types::DiskLocation;
use crate::text::{dec_digits, push_decimal, string_push_str};

verus! {

/// The bitmap of free blocks: a `bitvec::vec::BitVec` held privately.
#[verifier::external_body]
pub struct FreeBitmap {
    bits: BitVec,
}

/// The bits that the bitmap holds, in order.
pub uninterp spec fn bitvec_bits(b: FreeBitmap) -> Seq<bool>;

/// Number of positions of `s` that hold `v`.
pub open spec fn count_bits(s: Seq<bool>, v: bool) -> nat
    decreases s.len(),
{
    if s.len() == 0 {
        0
    } else {
        count_bits(s.drop_last(), v) + if s.last() == v {
            1nat
        } else {
            0nat
        }
    }
}

/// A bit-vector of `len` copies of `bit` (`BitVec::repeat`).
#[verifier::external_body]
fn bits_repeat(bit: bool, len: usize) -> (b: FreeBitmap)
    requires
        len <= usize::MAX / 8,
    ensures
        bitvec_bits(b) == Seq::new(len as nat, |i: int| bit),
{
    FreeBitmap { bits: BitVec::repeat(bit, len) }
}

/// The bit at `index` (indexing a `BitVec`).
#[verifier::external_body]
fn bits_get(b: &FreeBitmap, index: usize) -> (v: bool)
    requires
        index < bitvec_bits(*b).len(),
    ensures
        v == bitvec_bits(*b)[index as int],
{
    b.bits[index]
}

/// Writes the bit at `index` (`BitSlice::set`).
#[verifier::external_body]
fn bits_set(b: &mut FreeBitmap, index: usize, value: bool)
    requires
        index < bitvec_bits(*old(b)).len(),
    ensures
        bitvec_bits(*final(b)) == bitvec_bits(*old(b)).update(index as int, value),
{
    b.bits.set(index, value);
}

/// Number of set bits (`BitSlice::count_ones`).
#[verifier::external_body]
fn bits_count_ones(b: &FreeBitmap) -> (n: usize)
    ensures
        n == count_bits(bitvec_bits(*b), true),
{
    b.bits.count_ones()
}

/// Number of cleared bits (`BitSlice::count_zeros`).
#[verifier::external_body]
fn bits_count_zeros(b: &FreeBitmap) -> (n: usize)
    ensures
        n == count_bits(bitvec_bits(*b), false),
{
    b.bits.count_zeros()
}

/// Block allocator: manages which blocks of the data area are free.
pub struct BlockAllocator {
    block_size: usize,
    total_blocks: usize,
    free_blocks: FreeBitmap,
}

/// Whether `m` blocks from `p` on are all free.
pub open spec fn fits_at(free: Seq<bool>, p: int, m: int) -> bool {
    &&& 0 <= p
    &&& p + m <= free.len()
    &&& forall|j: int| p <= j < p + m ==> #[trigger] free[j]
}

/// Whether `p` is the first position where `m` free blocks begin.
pub open spec fn is_first_fit(free: Seq<bool>, p: int, m: int) -> bool {
    &&& fits_at(free, p, m)
    &&& forall|q: int| 0 <= q < p ==> !fits_at(free, q, m)
}

/// Number of blocks that the search for `n` blocks looks for: a request for
/// no blocks still needs one free block to anchor its location.
pub open spec fn search_len(n: int) -> int {
    if n == 0 {
        1
    } else {
        n
    }
}

/// The first position where `m` free blocks begin.
pub open spec fn first_fit(free: Seq<bool>, m: int) -> int {
    choose|p: int| is_first_fit(free, p, m)
}

/// `free` with the blocks `lo..hi` set to `v`.
pub open spec fn set_range(free: Seq<bool>, lo: int, hi: int, v: bool) -> Seq<bool> {
    Seq::new(free.len(), |j: int| if lo <= j < hi { v } else { free[j] })
}

proof fn lemma_first_fit_unique(free: Seq<bool>, p: int, m: int)
    requires
        is_first_fit(free, p, m),
    ensures
        first_fit(free, m) == p,
{
    let q = first_fit(free, m);
    assert(is_first_fit(free, q, m));
    if q < p {
        assert(!fits_at(free, q, m));
    }
    if p < q {
        assert(!fits_at(free, p, m));
    }
}

proof fn lemma_count_update(s: Seq<bool>, j: int, v: bool)
    requires
        0 <= j < s.len(),
    ensures
        count_bits(s.update(j, v), v) == count_bits(s, v) + if s[j] != v {
            1int
        } else {
            0int
        },
    decreases s.len(),
{
    let u = s.update(j, v);
    if j == s.len() - 1 {
        assert(u.drop_last() =~= s.drop_last());
    } else {
        lemma_count_update(s.drop_last(), j, v);
        assert(u.drop_last() =~= s.drop_last().update(j, v));
        assert(u.last() == s.last());
    }
}

proof fn lemma_count_taken(s: Seq<bool>, p: int, n: int)
    requires
        0 <= n,
        fits_at(s, p, n),
    ensures
        count_bits(set_range(s, p, p + n, false), false) == count_bits(s, false) + n,
    decreases n,
{
    if n == 0 {
        assert(set_range(s, p, p, false) =~= s);
    } else {
        lemma_count_taken(s, p, n - 1);
        let t = set_range(s, p, p + n - 1, false);
        assert(set_range(s, p, p + n, false) =~= t.update(p + n - 1, false));
        assert(t[p + n - 1] == s[p + n - 1]);
        assert(s[p + n - 1]);
        lemma_count_update(t, p + n - 1, false);
    }
}

impl BlockAllocator {
    /// Which blocks are free, one flag per block.
    pub closed spec fn free_map(&self) -> Seq<bool> {
        bitvec_bits(self.free_blocks)
    }

    /// Size of one block in bytes.
    pub closed spec fn spec_block_size(&self) -> nat {
        self.block_size as nat
    }

    /// Number of blocks managed.
    pub closed spec fn spec_total_blocks(&self) -> nat {
        self.total_blocks as nat
    }

    /// The bitmap has one flag per block.
    pub open spec fn wf(&self) -> bool {
        self.free_map().len() == self.spec_total_blocks()
    }

    /// An allocator of `total_blocks` blocks of `block_size` bytes, all free.
    pub fn new(block_size: usize, total_blocks: usize) -> (a: BlockAllocator)
        requires
            total_blocks <= usize::MAX / 8,
        ensures
            a.wf(),
            a.spec_block_size() == block_size,
            a.spec_total_blocks() == total_blocks,
            a.free_map() == Seq::new(total_blocks as nat, |i: int| true),
    {
        let free_blocks = bits_repeat(true, total_blocks);
        BlockAllocator { block_size, total_blocks, free_blocks }
    }

    /// Size of one block in bytes.
    pub fn block_size(&self) -> (b: usize)
        ensures
            b == self.spec_block_size(),
    {
        self.block_size
    }

    /// Allocates `blocks_needed` contiguous blocks, first fit.
    ///
    /// The blocks taken are the first run of free blocks long enough; they
    /// become used, and the location returned holds their offset relative to
    /// the data area and their size in bytes (truncated to 32 bits, as the
    /// location stores it). Without such a run, `NoSpace` and nothing changes.
    pub fn allocate(&mut self, blocks_needed: usize) -> (r: Result<DiskLocation, RawDiskError>)
        requires
            old(self).wf(),
            old(self).spec_total_blocks() * old(self).spec_block_size() <= usize::MAX,
            blocks_needed == 0 ==> exists|p: int| fits_at(old(self).free_map(), p, 1),
        ensures
            final(self).wf(),
            final(self).spec_block_size() == old(self).spec_block_size(),
            final(self).spec_total_blocks() == old(self).spec_total_blocks(),
            r is Ok <==> exists|p: int|
                fits_at(old(self).free_map(), p, search_len(blocks_needed as int)),
            r is Err ==> r->Err_0 is NoSpace && final(self).free_map() == old(self).free_map(),
            r is Ok ==> ({
                let p = first_fit(old(self).free_map(), search_len(blocks_needed as int));
                let loc = r->Ok_0;
                &&& is_first_fit(old(self).free_map(), p, search_len(blocks_needed as int))
                &&& final(self).free_map() == set_range(
                    old(self).free_map(),
                    p,
                    p + blocks_needed,
                    false,
                )
                &&& count_bits(final(self).free_map(), false) == count_bits(old(self).free_map(), false) + blocks_needed
                &&& loc.offset == p * old(self).spec_block_size()
                &&& loc.size == (blocks_needed * old(self).spec_block_size()) as u32
                &&& loc.checksum == 0
                &&& loc.timestamp == 0
                &&& !loc.compressed
                &&& loc.original_size == 0
            }),
    {
        let ghost free0 = self.free_map();
        let bs = self.block_size;
        let len = self.total_blocks;
        let m: usize = if blocks_needed == 0 {
            1
        } else {
            blocks_needed
        };
        assert(m == search_len(blocks_needed as int));
        let mut start: usize = 0;
        let mut count: usize = 0;
        let mut i: usize = 0;
        while i < len && count < m
            invariant
                self.wf(),
                free0 == self.free_map(),
                len == self.total_blocks,
                bs == self.block_size,
                i <= len,
                count <= m,
                start + count == i,
                forall|j: int| start <= j < i ==> #[trigger] free0[j],
                start > 0 ==> !free0[start - 1],
                forall|q: int| 0 <= q && q + m <= i && q < start ==> !fits_at(free0, q, m as int),
            decreases len - i,
        {
            if bits_get(&self.free_blocks, i) {
                proof {
                    assert forall|q: int| 0 <= q && q + m <= i + 1 && q < start implies !fits_at(
                        free0,
                        q,
                        m as int,
                    ) by {
                        if q + m > i {
                            assert(q <= start - 1 < q + m);
                        }
                    }
                }
                count = count + 1;
                i = i + 1;
            } else {
                proof {
                    assert forall|q: int| 0 <= q && q + m <= i + 1 && q < i + 1 implies !fits_at(
                        free0,
                        q,
                        m as int,
                    ) by {
                        if q + m <= i && q >= start {
                            assert(false);
                        } else if q + m > i {
                            assert(q <= i < q + m);
                            assert(!free0[i as int]);
                        }
                    }
                }
                i = i + 1;
                start = i;
                count = 0;
            }
        }
        if count < m {
            proof {
                assert forall|q: int| fits_at(free0, q, m as int) implies false by {
                    if q >= start {
                        assert(q + m <= len);
                    }
                }
            }
            return Err(RawDiskError::NoSpace);
        }
        proof {
            assert(fits_at(free0, start as int, m as int));
            assert(is_first_fit(free0, start as int, m as int));
            lemma_first_fit_unique(free0, start as int, m as int);
            assert(fits_at(free0, start as int, blocks_needed as int));
            lemma_count_taken(free0, start as int, blocks_needed as int);
        }
        let mut k: usize = start;
        while k < start + blocks_needed
            invariant
                self.wf(),
                self.total_blocks == len,
                self.block_size == bs,
                start + m <= len,
                blocks_needed <= m,
                start <= k <= start + blocks_needed,
                self.free_map() == set_range(free0, start as int, k as int, false),
                free0.len() == len,
            decreases start + blocks_needed - k,
        {
            bits_set(&mut self.free_blocks, k, false);
            assert(self.free_map() =~= set_range(free0, start as int, k + 1, false));
            k = k + 1;
        }
        proof {
            assert(start * bs <= len * bs) by (nonlinear_arith)
                requires start <= len;
            assert(blocks_needed * bs <= len * bs) by (nonlinear_arith)
                requires blocks_needed <= len;
        }
        let offset = (start * bs) as u64;
        let size = #[verifier::truncate] ((blocks_needed * bs) as u32);
        Ok(DiskLocation {
            offset,
            size,
            checksum: 0,
            timestamp: 0,
            compressed: false,
            original_size: 0,
        })
    }

    /// Marks the blocks that start at data offset `offset` as free; blocks
    /// past the end of the area are ignored.
    pub fn free(&mut self, offset: u64, blocks: usize) -> (r: Result<(), RawDiskError>)
        requires
            old(self).wf(),
            old(self).spec_block_size() > 0,
            (offset as usize) as int / old(self).spec_block_size() as int + blocks <= usize::MAX,
        ensures
            r is Ok,
            final(self).wf(),
            final(self).spec_block_size() == old(self).spec_block_size(),
            final(self).spec_total_blocks() == old(self).spec_total_blocks(),
            ({
                let lo = (offset as usize) as int / old(self).spec_block_size() as int;
                final(self).free_map() == set_range(old(self).free_map(), lo, lo + blocks, true)
            }),
    {
        let ghost free0 = self.free_map();
        let bs = self.block_size;
        let total = self.total_blocks;
        let start_block = (offset as usize) / self.block_size;
        let end_block = start_block + blocks;
        let mut i = start_block;
        while i < end_block
            invariant
                self.wf(),
                self.block_size == bs,
                self.total_blocks == total,
                free0.len() == self.total_blocks,
                start_block <= i <= end_block,
                self.free_map() == set_range(free0, start_block as int, i as int, true),
            decreases end_block - i,
        {
            if i < self.total_blocks {
                bits_set(&mut self.free_blocks, i, true);
            }
            assert(self.free_map() =~= set_range(free0, start_block as int, i + 1, true));
            i = i + 1;
        }
        Ok(())
    }

    /// Number of blocks in use.
    pub fn used_blocks(&self) -> (n: usize)
        ensures
            n == count_bits(self.free_map(), false),
    {
        bits_count_zeros(&self.free_blocks)
    }

    /// Number of free blocks.
    pub fn free_blocks(&self) -> (n: usize)
        ensures
            n == count_bits(self.free_map(), true),
    {
        bits_count_ones(&self.free_blocks)
    }

    /// Number of blocks managed.
    pub fn total_blocks(&self) -> (n: usize)
        ensures
            n == self.spec_total_blocks(),
    {
        self.total_blocks
    }

    /// Marks blocks as used (when rebuilding state after a restart); a range
    /// that runs past the end of the area is refused and changes nothing.
    pub fn mark_used(&mut self, offset: u64, blocks: usize) -> (r: Result<(), RawDiskError>)
        requires
            old(self).wf(),
            old(self).spec_block_size() > 0,
            (offset as usize) as int / old(self).spec_block_size() as int + blocks <= usize::MAX,
        ensures
            final(self).wf(),
            final(self).spec_block_size() == old(self).spec_block_size(),
            final(self).spec_total_blocks() == old(self).spec_total_blocks(),
            ({
                let lo = (offset as usize) as int / old(self).spec_block_size() as int;
                &&& (r is Ok <==> lo + blocks <= old(self).spec_total_blocks())
                &&& r is Ok ==> final(self).free_map() == set_range(
                    old(self).free_map(),
                    lo,
                    lo + blocks,
                    false,
                )
                &&& r is Err ==> r->Err_0 is AllocationError && final(self).free_map()
                    == old(self).free_map()
                &&& r is Err ==> (r matches Err(RawDiskError::AllocationError(m)) && m@
                    == "Block range out of bounds: "@ + dec_digits(lo as nat) + " + "@ + dec_digits(blocks as nat)
                    + " > "@ + dec_digits(old(self).spec_total_blocks()))
            }),
    {
        let ghost free0 = self.free_map();
        let bs = self.block_size;
        let total = self.total_blocks;
        let start_block = (offset as usize) / self.block_size;
        if start_block + blocks > self.total_blocks {
            let mut msg = String::new();
            string_push_str(&mut msg, "Block range out of bounds: ");
            push_decimal(&mut msg, start_block as u64);
            string_push_str(&mut msg, " + ");
            push_decimal(&mut msg, blocks as u64);
            string_push_str(&mut msg, " > ");
            push_decimal(&mut msg, self.total_blocks as u64);
            assert(msg@ =~= "Block range out of bounds: "@ + dec_digits(start_block as nat) + " + "@ + dec_digits(
                blocks as nat,
            ) + " > "@ + dec_digits(self.total_blocks as nat));
            return Err(RawDiskError::AllocationError(msg));
        }
        let end_block = start_block + blocks;
        let mut i = start_block;
        while i < end_block
            invariant
                self.wf(),
                self.block_size == bs,
                self.total_blocks == total,
                free0.len() == self.total_blocks,
                end_block <= self.total_blocks,
                start_block <= i <= end_block,
                self.free_map() == set_range(free0, start_block as int, i as int, false),
            decreases end_block - i,
        {
            bits_set(&mut self.free_blocks, i, false);
            assert(self.free_map() =~= set_range(free0, start_block as int, i + 1, false));
            i = i + 1;
        }
        Ok(())
    }
}


/// Every block is either used or free: the used and free counts add up to
/// the number of blocks.
pub proof fn law_used_plus_free(free: Seq<bool>)
    ensures
        count_bits(free, false) + count_bits(free, true) == free.len(),
    decreases free.len(),
{
    if free.len() > 0 {
        law_used_plus_free(free.drop_last());
    }
}

/// Freeing the blocks that an allocation took gives back the free map from
/// before the allocation: the allocation starts at block `p` of `n` free
/// blocks, and freeing reads the block back from its byte offset `p * bs`.
pub proof fn law_free_undoes_allocate(free: Seq<bool>, p: int, n: int, bs: int)
    requires
        fits_at(free, p, n),
        bs > 0,
    ensures
        (p * bs) / bs == p,
        set_range(set_range(free, p, p + n, false), (p * bs) / bs, (p * bs) / bs + n, true) == free,
{
    assert((p * bs) / bs == p) by (nonlinear_arith)
        requires
            bs > 0,
    ;
    assert(set_range(set_range(free, p, p + n, false), p, p + n, true) =~= free);
}

} // verus!
