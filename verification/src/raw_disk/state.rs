//! The bookkeeping of the raw disk cache: which keys are stored where, which
//! blocks are in use, and what the eviction strategies track. The device is
//! read and written by the caller; each step here says what to read or write
//! and takes the outcome.

use vstd::prelude::*;
use vstd::bytes::{spec_u64_from_le_bytes, spec_u64_to_le_bytes, u64_from_le_bytes, u64_to_le_bytes};
use super::RawDiskError;
use super::allocator::{BlockAllocator, fits_at, search_len, set_range};
use super::directory::{CacheDirectory, str_seq};
use super::gc::{EvictionStrategy, EvictionTracker, victims_spec, victims_view, without_all};
use super::superblock::Superblock;
use super::types::{DiskLocation, expired_at};
use crate::text::string_push_str;

verus! {

/// Blocks of `block_size` bytes needed for `size` bytes.
pub open spec fn blocks_for(size: nat, block_size: nat) -> nat {
    if size % block_size == 0 {
        size / block_size
    } else {
        size / block_size + 1
    }
}

/// The free map after the blocks from byte `start_byte` on, `blocks` of
/// them, are freed; a range whose end cannot be computed in `usize` frees
/// nothing, as in a release build.
pub open spec fn released(free: Seq<bool>, start_byte: u64, blocks: nat, block_size: nat) -> Seq<bool> {
    let lo = (start_byte as usize) as int / block_size as int;
    if lo + blocks <= usize::MAX {
        set_range(free, lo, lo + blocks, true)
    } else {
        free
    }
}

/// The free map after the blocks from byte `start_byte` on, `blocks` of
/// them, are taken back into use; a range that runs past the end of the
/// map, or whose end cannot be computed in `usize`, takes nothing.
pub open spec fn reclaimed(free: Seq<bool>, start_byte: u64, blocks: nat, block_size: nat) -> Seq<bool> {
    let lo = (start_byte as usize) as int / block_size as int;
    if lo + blocks <= usize::MAX && lo + blocks <= free.len() {
        set_range(free, lo, lo + blocks, false)
    } else {
        free
    }
}

/// The free map after the blocks of an entry at `location` are freed, the
/// offset taken relative to the data area at `data_offset`; an entry before
/// the data area frees nothing.
pub open spec fn released_relative(free: Seq<bool>, location: DiskLocation, data_offset: u64, block_size: nat) -> Seq<
    bool,
> {
    if location.offset >= data_offset {
        released(
            free,
            (location.offset - data_offset) as u64,
            blocks_for(location.size as nat, block_size),
            block_size,
        )
    } else {
        free
    }
}

/// Whether freeing the entry at `location`, its offset taken relative to the
/// data area at `data_offset`, frees block `j`.
pub open spec fn frees_block(location: DiskLocation, data_offset: u64, block_size: nat, j: int) -> bool {
    &&& location.offset >= data_offset
    &&& {
        let lo = (((location.offset - data_offset) as u64) as usize) as int / block_size as int;
        let n = blocks_for(location.size as nat, block_size);
        &&& lo + n <= usize::MAX
        &&& lo <= j < lo + n
    }
}

/// The free map after the blocks of the entries under `keys` are freed:
/// a block is free when it was, or when one of those entries held it.
pub open spec fn released_keys(
    free: Seq<bool>,
    entries: Map<Seq<char>, DiskLocation>,
    keys: Set<Seq<char>>,
    data_offset: u64,
    block_size: nat,
) -> Seq<bool> {
    Seq::new(
        free.len(),
        |j: int|
            free[j] || exists|k: Seq<char>|
                #[trigger] keys.contains(k) && entries.contains_key(k) && frees_block(entries[k], data_offset, block_size, j),
    )
}

/// The bytes held by the entries of `entries` named in `names`, each
/// counted at its first occurrence.
pub open spec fn removed_bytes(entries: Map<Seq<char>, DiskLocation>, names: Seq<Seq<char>>) -> nat
    decreases names.len(),
{
    if names.len() == 0 {
        0
    } else {
        let k = names.last();
        let prev = names.drop_last();
        removed_bytes(entries, prev) + if entries.contains_key(k) && !prev.contains(k) {
            entries[k].size as nat
        } else {
            0nat
        }
    }
}

/// Freeing one more entry's blocks.
proof fn lemma_release_key(
    free: Seq<bool>,
    entries: Map<Seq<char>, DiskLocation>,
    keys: Set<Seq<char>>,
    k: Seq<char>,
    data_offset: u64,
    block_size: nat,
)
    requires
        entries.contains_key(k),
    ensures
        released_relative(released_keys(free, entries, keys, data_offset, block_size), entries[k], data_offset, block_size)
            == released_keys(free, entries, keys.insert(k), data_offset, block_size),
{
    let a = released_keys(free, entries, keys, data_offset, block_size);
    let b = released_keys(free, entries, keys.insert(k), data_offset, block_size);
    let c = released_relative(a, entries[k], data_offset, block_size);
    assert forall|j: int| 0 <= j < free.len() implies c[j] == b[j] by {
        if frees_block(entries[k], data_offset, block_size, j) {
            assert(keys.insert(k).contains(k));
        } else {
            if b[j] && !free[j] {
                let w = choose|w: Seq<char>|
                    #[trigger] keys.insert(k).contains(w) && entries.contains_key(w) && frees_block(
                        entries[w],
                        data_offset,
                        block_size,
                        j,
                    );
                assert(keys.contains(w));
            }
            if a[j] && !free[j] {
                let w = choose|w: Seq<char>|
                    #[trigger] keys.contains(w) && entries.contains_key(w) && frees_block(entries[w], data_offset, block_size, j);
                assert(keys.insert(k).contains(w));
            }
        }
    }
    assert(c =~= b);
}

/// Naming an entry that is absent, or already named, frees nothing more.
proof fn lemma_release_key_noop(
    free: Seq<bool>,
    entries: Map<Seq<char>, DiskLocation>,
    keys: Set<Seq<char>>,
    k: Seq<char>,
    data_offset: u64,
    block_size: nat,
)
    requires
        !entries.contains_key(k) || keys.contains(k),
    ensures
        released_keys(free, entries, keys, data_offset, block_size) == released_keys(
            free,
            entries,
            keys.insert(k),
            data_offset,
            block_size,
        ),
{
    let a = released_keys(free, entries, keys, data_offset, block_size);
    let b = released_keys(free, entries, keys.insert(k), data_offset, block_size);
    assert forall|j: int| 0 <= j < free.len() implies a[j] == b[j] by {
        if b[j] && !free[j] {
            let w = choose|w: Seq<char>|
                #[trigger] keys.insert(k).contains(w) && entries.contains_key(w) && frees_block(entries[w], data_offset, block_size, j);
            assert(keys.contains(w));
        }
        if a[j] && !free[j] {
            let w = choose|w: Seq<char>|
                #[trigger] keys.contains(w) && entries.contains_key(w) && frees_block(entries[w], data_offset, block_size, j);
            assert(keys.insert(k).contains(w));
        }
    }
    assert(a =~= b);
}

/// Nothing named frees nothing.
proof fn lemma_release_none(
    free: Seq<bool>,
    entries: Map<Seq<char>, DiskLocation>,
    data_offset: u64,
    block_size: nat,
)
    ensures
        released_keys(free, entries, Set::empty(), data_offset, block_size) == free,
{
    assert(released_keys(free, entries, Set::empty(), data_offset, block_size) =~= free);
}

/// The blocks of removed entries become free: after the entries under
/// `keys` are released, every block that one of them held is free, and
/// every block that was free stays free.
pub proof fn law_released_blocks_free(
    free: Seq<bool>,
    entries: Map<Seq<char>, DiskLocation>,
    keys: Set<Seq<char>>,
    data_offset: u64,
    block_size: nat,
    k: Seq<char>,
    j: int,
)
    requires
        keys.contains(k),
        entries.contains_key(k),
        frees_block(entries[k], data_offset, block_size, j),
        0 <= j < free.len(),
    ensures
        released_keys(free, entries, keys, data_offset, block_size)[j],
        forall|i: int| 0 <= i < free.len() && free[i] ==> released_keys(free, entries, keys, data_offset, block_size)[i],
{
}

proof fn lemma_wrap_add(a: nat, b: u64, s: nat)
    requires
        b as int == a % 0x1_0000_0000_0000_0000,
        s <= u32::MAX,
    ensures
        (if b + s > u64::MAX { (b + s - 0x1_0000_0000_0000_0000) as u64 } else { (b + s) as u64 }) as int
            == (a + s) % 0x1_0000_0000_0000_0000,
{
    let m: int = 0x1_0000_0000_0000_0000;
    let q = a as int / m;
    assert(a as int == q * m + b) by (nonlinear_arith)
        requires
            m > 0,
            q == a as int / m,
            b as int == a as int % m,
    ;
    if b + s > u64::MAX {
        assert((a + s) as int == (q + 1) * m + (b + s - m)) by (nonlinear_arith)
            requires
                a as int == q * m + b,
        ;
        vstd::arithmetic::div_mod::lemma_fundamental_div_mod_converse((a + s) as int, m, q + 1, b + s - m);
    } else {
        vstd::arithmetic::div_mod::lemma_fundamental_div_mod_converse((a + s) as int, m, q, b + s);
    }
}

/// The first block of an entry at `location`, counted in blocks of
/// `block_size` bytes from the data area at `data_offset`.
pub open spec fn entry_first_block(location: DiskLocation, data_offset: u64, block_size: nat) -> int {
    (((location.offset - data_offset) as u64) as usize) as int / block_size as int
}

/// Whether an entry at `location` whose data read back `intact` is kept
/// when the allocation is rebuilt: it lies in the data area, and its blocks
/// (`needed_bs`-byte blocks counted from the `alloc_bs`-byte block where it
/// starts) end within the `total` blocks of the area.
pub open spec fn kept_on_rebuild(
    location: DiskLocation,
    intact: bool,
    data_offset: u64,
    needed_bs: nat,
    alloc_bs: nat,
    total: nat,
) -> bool {
    let lo = entry_first_block(location, data_offset, alloc_bs);
    let n = blocks_for(location.size as nat, needed_bs);
    &&& intact
    &&& location.offset >= data_offset
    &&& lo + n <= usize::MAX
    &&& lo + n <= total
}

/// How many of the first `i` entries of `list` are kept on rebuild.
pub open spec fn kept_count(
    list: Seq<(String, DiskLocation)>,
    intact: Seq<bool>,
    data_offset: u64,
    needed_bs: nat,
    alloc_bs: nat,
    total: nat,
    i: int,
) -> nat
    decreases i,
{
    if i <= 0 {
        0
    } else {
        kept_count(list, intact, data_offset, needed_bs, alloc_bs, total, i - 1) + if kept_on_rebuild(
            list[i - 1].1,
            intact[i - 1],
            data_offset,
            needed_bs,
            alloc_bs,
            total,
        ) {
            1nat
        } else {
            0nat
        }
    }
}

/// Whether block `b` is held by one of the first `i` entries of `list` that
/// are kept on rebuild.
pub open spec fn held_on_rebuild(
    list: Seq<(String, DiskLocation)>,
    intact: Seq<bool>,
    data_offset: u64,
    needed_bs: nat,
    alloc_bs: nat,
    total: nat,
    i: int,
    b: int,
) -> bool {
    exists|m: int|
        0 <= m < i && #[trigger] kept_on_rebuild(list[m].1, intact[m], data_offset, needed_bs, alloc_bs, total)
            && entry_first_block(list[m].1, data_offset, alloc_bs) <= b < entry_first_block(
            list[m].1,
            data_offset,
            alloc_bs,
        ) + blocks_for(list[m].1.size as nat, needed_bs)
}

/// The free map after the blocks of the first `i` kept entries of `list`
/// are marked used.
pub open spec fn reserved_on_rebuild(
    free: Seq<bool>,
    list: Seq<(String, DiskLocation)>,
    intact: Seq<bool>,
    data_offset: u64,
    needed_bs: nat,
    alloc_bs: nat,
    i: int,
) -> Seq<bool> {
    Seq::new(
        free.len(),
        |b: int| free[b] && !held_on_rebuild(list, intact, data_offset, needed_bs, alloc_bs, free.len(), i, b),
    )
}

proof fn lemma_reserve_step(
    free: Seq<bool>,
    list: Seq<(String, DiskLocation)>,
    intact: Seq<bool>,
    data_offset: u64,
    needed_bs: nat,
    alloc_bs: nat,
    i: int,
)
    requires
        0 <= i,
    ensures
        ({
            let loc = list[i].1;
            let cur = reserved_on_rebuild(free, list, intact, data_offset, needed_bs, alloc_bs, i);
            let next = reserved_on_rebuild(free, list, intact, data_offset, needed_bs, alloc_bs, i + 1);
            let lo = entry_first_block(loc, data_offset, alloc_bs);
            let n = blocks_for(loc.size as nat, needed_bs);
            &&& kept_on_rebuild(loc, intact[i], data_offset, needed_bs, alloc_bs, free.len()) ==> next == set_range(
                cur,
                lo,
                lo + n,
                false,
            )
            &&& !kept_on_rebuild(loc, intact[i], data_offset, needed_bs, alloc_bs, free.len()) ==> next == cur
        }),
{
    let loc = list[i].1;
    let total = free.len();
    let cur = reserved_on_rebuild(free, list, intact, data_offset, needed_bs, alloc_bs, i);
    let next = reserved_on_rebuild(free, list, intact, data_offset, needed_bs, alloc_bs, i + 1);
    let lo = entry_first_block(loc, data_offset, alloc_bs);
    let n = blocks_for(loc.size as nat, needed_bs);
    let keep = kept_on_rebuild(loc, intact[i], data_offset, needed_bs, alloc_bs, total);
    assert forall|b: int| 0 <= b < total implies #[trigger] held_on_rebuild(list, intact, data_offset, needed_bs, alloc_bs, total, i + 1, b)
        == (held_on_rebuild(list, intact, data_offset, needed_bs, alloc_bs, total, i, b) || (keep && lo <= b < lo + n)) by {
        if held_on_rebuild(list, intact, data_offset, needed_bs, alloc_bs, total, i + 1, b) {
            let m = choose|m: int|
                0 <= m < i + 1 && #[trigger] kept_on_rebuild(list[m].1, intact[m], data_offset, needed_bs, alloc_bs, total)
                    && entry_first_block(list[m].1, data_offset, alloc_bs) <= b < entry_first_block(
                    list[m].1,
                    data_offset,
                    alloc_bs,
                ) + blocks_for(list[m].1.size as nat, needed_bs);
            if m < i {
                assert(held_on_rebuild(list, intact, data_offset, needed_bs, alloc_bs, total, i, b));
            }
        }
        if held_on_rebuild(list, intact, data_offset, needed_bs, alloc_bs, total, i, b) {
            let m = choose|m: int|
                0 <= m < i && #[trigger] kept_on_rebuild(list[m].1, intact[m], data_offset, needed_bs, alloc_bs, total)
                    && entry_first_block(list[m].1, data_offset, alloc_bs) <= b < entry_first_block(
                    list[m].1,
                    data_offset,
                    alloc_bs,
                ) + blocks_for(list[m].1.size as nat, needed_bs);
            assert(0 <= m < i + 1);
        }
        if keep && lo <= b < lo + n {
            assert(kept_on_rebuild(list[i].1, intact[i], data_offset, needed_bs, alloc_bs, total));
        }
    }
    if keep {
        assert(next =~= set_range(cur, lo, lo + n, false));
    } else {
        assert(next =~= cur);
    }
}

/// Bookkeeping of the raw disk cache.
pub struct RawDiskState {
    superblock: Superblock,
    directory: CacheDirectory,
    allocator: BlockAllocator,
    tracker: EvictionTracker,
}

/// What a move of an entry to a new place needs after its old blocks were
/// released and new ones taken.
#[derive(Debug, Clone, Copy)]
pub struct MovePlan {
    /// Where the data goes on the device.
    pub new_offset: u64,
    /// The new blocks' offset relative to the data area.
    pub new_relative: u64,
    /// Number of new blocks.
    pub new_blocks: usize,
    /// The old blocks' offset relative to the data area.
    pub old_relative: u64,
    /// Number of old blocks.
    pub old_blocks: usize,
}

proof fn lemma_mul_le(p: int, t: int, b: int)
    requires
        0 <= p < t,
        b >= 0,
    ensures
        p * b <= t * b,
{
    assert(p * b <= t * b) by (nonlinear_arith)
        requires
            0 <= p < t,
            b >= 0,
    ;
}

fn block_count(size: usize, block_size: usize) -> (n: usize)
    requires
        block_size > 0,
    ensures
        n == blocks_for(size as nat, block_size as nat),
{
    let q = size / block_size;
    if size % block_size == 0 {
        q
    } else {
        assert(q < usize::MAX) by (nonlinear_arith)
            requires
                block_size >= 2,
                q == size / block_size,
                size <= usize::MAX,
        ;
        q + 1
    }
}

proof fn lemma_push_set<A>(a: Seq<A>, y: A)
    ensures
        a.push(y).to_set() == a.to_set().insert(y),
{
    assert forall|x: A| #[trigger] a.push(y).to_set().contains(x) <==> a.to_set().insert(y).contains(x) by {
        super::directory::lemma_push_contains(a, y, x);
    }
    assert(a.push(y).to_set() =~= a.to_set().insert(y));
}

/// Marks used in `allocator` the blocks of an entry at `location` whose
/// data read back `intact`, when it is kept on rebuild (blocks of
/// `needed_bs` bytes, the data area starting at `data_offset`).
fn reserve_entry(
    allocator: &mut BlockAllocator,
    data_offset: u64,
    location: &DiskLocation,
    intact: bool,
    needed_bs: usize,
) -> (keep: bool)
    requires
        old(allocator).wf(),
        old(allocator).spec_block_size() > 0,
        needed_bs > 0,
    ensures
        final(allocator).wf(),
        final(allocator).spec_block_size() == old(allocator).spec_block_size(),
        final(allocator).spec_total_blocks() == old(allocator).spec_total_blocks(),
        keep == kept_on_rebuild(
            *location,
            intact,
            data_offset,
            needed_bs as nat,
            old(allocator).spec_block_size(),
            old(allocator).free_map().len(),
        ),
        keep ==> final(allocator).free_map() == set_range(
            old(allocator).free_map(),
            entry_first_block(*location, data_offset, old(allocator).spec_block_size()),
            entry_first_block(*location, data_offset, old(allocator).spec_block_size()) + blocks_for(
                location.size as nat,
                needed_bs as nat,
            ),
            false,
        ),
        !keep ==> final(allocator).free_map() == old(allocator).free_map(),
{
    if location.offset < data_offset || !intact {
        return false;
    }
    let alloc_bs = allocator.block_size();
    let relative = location.offset - data_offset;
    let blocks = block_count(location.size as usize, needed_bs);
    if (#[verifier::truncate] (relative as usize)) / alloc_bs <= usize::MAX - blocks {
        match allocator.mark_used(relative, blocks) {
            Ok(()) => true,
            Err(_) => false,
        }
    } else {
        false
    }
}

impl RawDiskState {
    /// The superblock.
    pub closed spec fn spec_superblock(&self) -> Superblock {
        self.superblock
    }

    /// The directory.
    pub closed spec fn spec_directory(&self) -> CacheDirectory {
        self.directory
    }

    /// The block allocator.
    pub closed spec fn spec_allocator(&self) -> BlockAllocator {
        self.allocator
    }

    /// The eviction tracker.
    pub closed spec fn spec_tracker(&self) -> EvictionTracker {
        self.tracker
    }

    /// The entries: key to location.
    pub open spec fn entries(&self) -> Map<Seq<char>, DiskLocation> {
        self.spec_directory().entries()
    }

    /// Which blocks are free.
    pub open spec fn free_map(&self) -> Seq<bool> {
        self.spec_allocator().free_map()
    }

    /// Size of the allocator's blocks.
    pub open spec fn alloc_block_size(&self) -> nat {
        self.spec_allocator().spec_block_size()
    }

    /// Where the data area starts.
    pub open spec fn data_offset(&self) -> u64 {
        self.spec_superblock().spec_data_offset()
    }

    /// The parts are consistent: block sizes are positive and every block
    /// offset of the data area can be computed.
    pub open spec fn wf(&self) -> bool {
        &&& self.spec_directory().wf()
        &&& self.spec_allocator().wf()
        &&& self.spec_tracker().wf()
        &&& self.spec_superblock().spec_block_size() > 0
        &&& self.alloc_block_size() > 0
        &&& self.spec_allocator().spec_total_blocks() * self.alloc_block_size() <= usize::MAX
        &&& self.data_offset() + self.spec_allocator().spec_total_blocks() * self.alloc_block_size() <= u64::MAX
    }

    /// The state of a cache laid out by `superblock`: an allocator of
    /// `block_size`-byte blocks over the superblock's data area, all free; an
    /// empty directory; LRU eviction with entries living `ttl_secs` seconds.
    pub fn new(superblock: Superblock, block_size: usize, ttl_secs: u64) -> (s: RawDiskState)
        requires
            superblock.spec_block_size() > 0,
            block_size > 0,
            superblock.spec_total_blocks() <= usize::MAX / 8,
            superblock.spec_total_blocks() * block_size <= usize::MAX,
            superblock.spec_data_offset() + superblock.spec_total_blocks() * block_size <= u64::MAX,
        ensures
            s.wf(),
            s.spec_superblock() == superblock,
            s.entries() == Map::<Seq<char>, DiskLocation>::empty(),
            s.spec_directory().lru_order().len() == 0,
            s.alloc_block_size() == block_size,
            s.spec_allocator().spec_total_blocks() == superblock.spec_total_blocks(),
            s.free_map() == Seq::new(superblock.spec_total_blocks() as nat, |i: int| true),
            s.spec_tracker().spec_strategy() == EvictionStrategy::LRU,
            s.spec_tracker().spec_ttl() == ttl_secs,
            s.spec_tracker().frequencies() == Map::<Seq<char>, u64>::empty(),
    {
        let total = superblock.total_blocks() as usize;
        RawDiskState {
            superblock,
            directory: CacheDirectory::new(),
            allocator: BlockAllocator::new(block_size, total),
            tracker: EvictionTracker::new(EvictionStrategy::LRU, ttl_secs),
        }
    }

    /// The superblock.
    pub fn superblock(&self) -> (s: &Superblock)
        ensures
            *s == self.spec_superblock(),
    {
        &self.superblock
    }

    /// The directory.
    pub fn directory(&self) -> (d: &CacheDirectory)
        ensures
            *d == self.spec_directory(),
    {
        &self.directory
    }

    /// The block allocator.
    pub fn allocator(&self) -> (a: &BlockAllocator)
        ensures
            *a == self.spec_allocator(),
    {
        &self.allocator
    }

    /// The eviction tracker.
    pub fn tracker(&self) -> (t: &EvictionTracker)
        ensures
            *t == self.spec_tracker(),
    {
        &self.tracker
    }

    /// Changes the eviction strategy and time-to-live.
    pub fn set_eviction_policy(&mut self, strategy: EvictionStrategy, ttl_secs: u64)
        requires
            old(self).wf(),
        ensures
            final(self).wf(),
            final(self).spec_superblock() == old(self).spec_superblock(),
            final(self).spec_directory() == old(self).spec_directory(),
            final(self).spec_allocator() == old(self).spec_allocator(),
            final(self).spec_tracker().spec_strategy() == strategy,
            final(self).spec_tracker().spec_ttl() == ttl_secs,
            final(self).spec_tracker().frequencies() == old(self).spec_tracker().frequencies(),
            final(self).spec_tracker().insertions() == old(self).spec_tracker().insertions(),
    {
        self.tracker.set_policy(strategy, ttl_secs);
    }

    /// Takes space for `data_len` bytes: the first run of free blocks long
    /// enough, as blocks of the superblock's size. Gives the device offset to
    /// write to; `NoSpace` leaves everything as it was.
    pub fn allocate_for(&mut self, data_len: usize) -> (r: Result<u64, RawDiskError>)
        requires
            old(self).wf(),
            blocks_for(data_len as nat, old(self).spec_superblock().spec_block_size() as nat) == 0 ==> exists|p: int|
                fits_at(old(self).free_map(), p, 1),
        ensures
            final(self).wf(),
            final(self).spec_superblock() == old(self).spec_superblock(),
            final(self).spec_directory() == old(self).spec_directory(),
            final(self).spec_tracker() == old(self).spec_tracker(),
            final(self).alloc_block_size() == old(self).alloc_block_size(),
            final(self).spec_allocator().spec_total_blocks() == old(self).spec_allocator().spec_total_blocks(),
            ({
                let n = blocks_for(data_len as nat, old(self).spec_superblock().spec_block_size() as nat);
                let m = search_len(n as int);
                &&& r is Ok <==> exists|p: int| fits_at(old(self).free_map(), p, m)
                &&& r is Err ==> r->Err_0 is NoSpace && final(self).free_map() == old(self).free_map()
                &&& r is Ok ==> {
                    let p = super::allocator::first_fit(old(self).free_map(), m);
                    &&& final(self).free_map() == set_range(old(self).free_map(), p, p + n, false)
                    &&& r->Ok_0 == old(self).data_offset() + p * old(self).alloc_block_size()
                }
            }),
    {
        let block_size = self.superblock.block_size() as usize;
        let data_offset = self.superblock.data_offset();
        let blocks_needed = block_count(data_len, block_size);
        match self.allocator.allocate(blocks_needed) {
            Ok(loc) => {
                proof {
                    let p = super::allocator::first_fit(old(self).free_map(), search_len(blocks_needed as int));
                    assert(p < old(self).spec_allocator().spec_total_blocks()) by {
                        assert(super::allocator::is_first_fit(
                            old(self).free_map(),
                            p,
                            search_len(blocks_needed as int),
                        ));
                    }
                    lemma_mul_le(p, old(self).spec_allocator().spec_total_blocks() as int, old(self).alloc_block_size() as int);
                }
                Ok(data_offset + loc.offset)
            },
            Err(e) => Err(e),
        }
    }

    /// Records that `key` is stored at `location` (after its data was
    /// written): the directory maps it there and counts it most recently
    /// used, and the tracker notes the insertion.
    pub fn commit_store(&mut self, key: String, location: DiskLocation)
        requires
            old(self).wf(),
        ensures
            final(self).wf(),
            final(self).spec_superblock() == old(self).spec_superblock(),
            final(self).spec_allocator() == old(self).spec_allocator(),
            final(self).entries() == old(self).entries().insert(key@, location),
            final(self).spec_directory().lru_order() == old(self).spec_directory().lru_order().push(key@),
            final(self).spec_tracker().frequencies() == old(self).spec_tracker().frequencies(),
            old(self).spec_tracker().spec_strategy() is FIFO ==> final(self).spec_tracker().insertions() == old(
                self,
            ).spec_tracker().insertions().push(key@),
            !(old(self).spec_tracker().spec_strategy() is FIFO) ==> final(self).spec_tracker().insertions() == old(
                self,
            ).spec_tracker().insertions(),
            final(self).spec_tracker().spec_strategy() == old(self).spec_tracker().spec_strategy(),
            final(self).spec_tracker().spec_ttl() == old(self).spec_tracker().spec_ttl(),
    {
        let k2 = key.clone();
        self.directory.insert(key, location);
        self.tracker.record_insertion(k2);
    }

    /// The location of `key`, if it is stored.
    pub fn find(&self, key: &str) -> (r: Option<DiskLocation>)
        requires
            self.wf(),
        ensures
            r is Some <==> self.entries().contains_key(key@),
            r is Some ==> r->Some_0 == self.entries()[key@],
    {
        match self.directory.get(key) {
            Some(loc) => Some(*loc),
            None => None,
        }
    }

    /// Notes a read of `key`: it becomes most recently used (a hit, or a
    /// miss when absent) and the tracker counts the access.
    pub fn note_access(&mut self, key: &str)
        requires
            old(self).wf(),
            old(self).spec_directory().spec_hits() < u64::MAX,
            old(self).spec_directory().spec_misses() < u64::MAX,
            old(self).spec_tracker().frequencies().dom().contains(key@) ==> old(self).spec_tracker().frequencies()[key@]
                < u64::MAX,
        ensures
            final(self).wf(),
            final(self).spec_superblock() == old(self).spec_superblock(),
            final(self).spec_allocator() == old(self).spec_allocator(),
            final(self).entries() == old(self).entries(),
            old(self).entries().contains_key(key@) ==> final(self).spec_directory().spec_hits() == old(
                self,
            ).spec_directory().spec_hits() + 1,
            !old(self).entries().contains_key(key@) ==> final(self).spec_directory().spec_misses() == old(
                self,
            ).spec_directory().spec_misses() + 1,
            old(self).spec_tracker().spec_strategy() is LFU ==> final(self).spec_tracker().frequencies() == old(
                self,
            ).spec_tracker().frequencies().insert(
                key@,
                if old(self).spec_tracker().frequencies().dom().contains(key@) {
                    (old(self).spec_tracker().frequencies()[key@] + 1) as u64
                } else {
                    1
                },
            ),
            !(old(self).spec_tracker().spec_strategy() is LFU) ==> final(self).spec_tracker().frequencies() == old(
                self,
            ).spec_tracker().frequencies(),
            final(self).spec_tracker().spec_strategy() == old(self).spec_tracker().spec_strategy(),
            final(self).spec_tracker().spec_ttl() == old(self).spec_tracker().spec_ttl(),
            final(self).spec_tracker().insertions() == old(self).spec_tracker().insertions(),
    {
        self.directory.touch(key);
        self.tracker.record_access(key);
    }

    fn release(&mut self, start_byte: u64, blocks: usize)
        requires
            old(self).wf(),
        ensures
            final(self).wf(),
            final(self).spec_superblock() == old(self).spec_superblock(),
            final(self).spec_directory() == old(self).spec_directory(),
            final(self).spec_tracker() == old(self).spec_tracker(),
            final(self).alloc_block_size() == old(self).alloc_block_size(),
            final(self).spec_allocator().spec_total_blocks() == old(self).spec_allocator().spec_total_blocks(),
            final(self).free_map() == released(
                old(self).free_map(),
                start_byte,
                blocks as nat,
                old(self).alloc_block_size(),
            ),
    {
        let bs = self.allocator.block_size();
        let lo = (#[verifier::truncate] (start_byte as usize)) / bs;
        if blocks <= usize::MAX - lo {
            let _ = self.allocator.free(start_byte, blocks);
        }
    }

    fn reclaim(&mut self, start_byte: u64, blocks: usize)
        requires
            old(self).wf(),
        ensures
            final(self).wf(),
            final(self).spec_superblock() == old(self).spec_superblock(),
            final(self).spec_directory() == old(self).spec_directory(),
            final(self).spec_tracker() == old(self).spec_tracker(),
            final(self).alloc_block_size() == old(self).alloc_block_size(),
            final(self).spec_allocator().spec_total_blocks() == old(self).spec_allocator().spec_total_blocks(),
            final(self).free_map() == reclaimed(
                old(self).free_map(),
                start_byte,
                blocks as nat,
                old(self).alloc_block_size(),
            ),
    {
        let bs = self.allocator.block_size();
        if (#[verifier::truncate] (start_byte as usize)) / bs <= usize::MAX - blocks {
            let _ = self.allocator.mark_used(start_byte, blocks);
        }
    }

    fn release_relative(&mut self, location: &DiskLocation)
        requires
            old(self).wf(),
        ensures
            final(self).wf(),
            final(self).spec_superblock() == old(self).spec_superblock(),
            final(self).spec_directory() == old(self).spec_directory(),
            final(self).spec_tracker() == old(self).spec_tracker(),
            final(self).alloc_block_size() == old(self).alloc_block_size(),
            final(self).spec_allocator().spec_total_blocks() == old(self).spec_allocator().spec_total_blocks(),
            final(self).free_map() == released_relative(
                old(self).free_map(),
                *location,
                old(self).data_offset(),
                old(self).alloc_block_size(),
            ),
    {
        let data_offset = self.superblock.data_offset();
        if location.offset >= data_offset {
            let blocks = block_count(location.size as usize, self.allocator.block_size());
            self.release(location.offset - data_offset, blocks);
        }
    }

    /// Removes `key` and frees its blocks (its offset taken relative to the
    /// data area); the tracker forgets the key.
    pub fn remove_entry(&mut self, key: &str) -> (r: Option<DiskLocation>)
        requires
            old(self).wf(),
        ensures
            final(self).wf(),
            final(self).spec_superblock() == old(self).spec_superblock(),
            r is Some <==> old(self).entries().contains_key(key@),
            final(self).entries() == old(self).entries().remove(key@),
            r matches Some(loc) ==> {
                &&& loc == old(self).entries()[key@]
                &&& final(self).free_map() == released_relative(
                    old(self).free_map(),
                    loc,
                    old(self).data_offset(),
                    old(self).alloc_block_size(),
                )
                &&& final(self).spec_tracker().frequencies() == old(self).spec_tracker().frequencies().remove(key@)
                &&& final(self).spec_tracker().insertions() == without_all(
                    old(self).spec_tracker().insertions(),
                    seq![key@],
                )
            },
            r is None ==> final(self).free_map() == old(self).free_map() && final(self).spec_tracker() == old(
                self,
            ).spec_tracker(),
    {
        match self.directory.remove(key) {
            Some(loc) => {
                self.release_relative(&loc);
                let mut k = String::new();
                string_push_str(&mut k, key);
                let keys = vec![k];
                self.tracker.cleanup_removed_keys(keys.as_slice());
                proof {
                    assert(str_seq(keys@) =~= seq![key@]);
                    assert(seq![key@] =~= Seq::<Seq<char>>::empty().push(key@));
                    lemma_push_set(Seq::<Seq<char>>::empty(), key@);
                    assert(Seq::<Seq<char>>::empty().to_set() =~= Set::<Seq<char>>::empty());
                    assert(seq![key@].to_set() =~= set![key@]);
                    assert(old(self).spec_tracker().frequencies().remove_keys(set![key@]) =~= old(
                        self,
                    ).spec_tracker().frequencies().remove(key@));
                }
                Some(loc)
            },
            None => None,
        }
    }

    /// Chooses up to `target_count` entries to evict at time `now`, as the
    /// tracker's strategy picks them.
    pub fn select_victims_at(&self, target_count: usize, now: u64) -> (r: Vec<(String, DiskLocation)>)
        requires
            self.wf(),
        ensures
            victims_view(r@) == victims_spec(self.spec_tracker(), self.spec_directory(), target_count as int, now),
    {
        self.tracker.select_victims_at(&self.directory, target_count, now)
    }

    /// Evicts the given entries: each that is still present leaves the
    /// directory and its blocks are freed (offsets relative to the data
    /// area); the tracker forgets the evicted keys. Gives the number evicted
    /// and the bytes they held.
    pub fn evict(&mut self, victims: &[(String, DiskLocation)]) -> (r: (usize, u64))
        requires
            old(self).wf(),
        ensures
            final(self).wf(),
            final(self).spec_superblock() == old(self).spec_superblock(),
            final(self).entries() == old(self).entries().remove_keys(
                victims@.map_values(|v: (String, DiskLocation)| v.0@).to_set(),
            ),
            r.0 == victims@.map_values(|v: (String, DiskLocation)| v.0@).to_set().intersect(
                old(self).entries().dom(),
            ).len(),
            final(self).spec_tracker().frequencies() == old(self).spec_tracker().frequencies().remove_keys(
                victims@.map_values(|v: (String, DiskLocation)| v.0@).to_set().intersect(old(self).entries().dom()),
            ),
            final(self).alloc_block_size() == old(self).alloc_block_size(),
            final(self).spec_allocator().spec_total_blocks() == old(self).spec_allocator().spec_total_blocks(),
            final(self).free_map() == released_keys(
                old(self).free_map(),
                old(self).entries(),
                victims@.map_values(|v: (String, DiskLocation)| v.0@).to_set(),
                old(self).data_offset(),
                old(self).alloc_block_size(),
            ),
            r.1 as int == removed_bytes(old(self).entries(), victims@.map_values(|v: (String, DiskLocation)| v.0@))
                % 0x1_0000_0000_0000_0000,
    {
        let mut evicted: Vec<String> = Vec::new();
        let mut count: usize = 0;
        let mut bytes: u64 = 0;
        let mut i: usize = 0;
        let ghost names = victims@.map_values(|v: (String, DiskLocation)| v.0@);
        proof {
            assert(names.take(0).to_set() =~= Set::<Seq<char>>::empty());
            lemma_release_none(old(self).free_map(), old(self).entries(), old(self).data_offset(), old(self).alloc_block_size());
        }
        while i < victims.len()
            invariant
                i <= victims@.len(),
                self.wf(),
                self.spec_superblock() == old(self).spec_superblock(),
                names == victims@.map_values(|v: (String, DiskLocation)| v.0@),
                self.entries() == old(self).entries().remove_keys(names.take(i as int).to_set()),
                self.spec_tracker() == old(self).spec_tracker(),
                str_seq(evicted@).to_set() == names.take(i as int).to_set().intersect(old(self).entries().dom()),
                str_seq(evicted@).no_duplicates(),
                count == evicted@.len(),
                count <= i,
                self.alloc_block_size() == old(self).alloc_block_size(),
                self.spec_allocator().spec_total_blocks() == old(self).spec_allocator().spec_total_blocks(),
                self.free_map() == released_keys(
                    old(self).free_map(),
                    old(self).entries(),
                    names.take(i as int).to_set(),
                    old(self).data_offset(),
                    old(self).alloc_block_size(),
                ),
                bytes as int == removed_bytes(old(self).entries(), names.take(i as int)) % 0x1_0000_0000_0000_0000,
            decreases victims@.len() - i,
        {
            let key = &victims[i].0;
            let ghost cur = self.entries();
            let ghost free_before = self.free_map();
            let ghost bytes_before = bytes;
            proof {
                assert(names.take(i + 1).drop_last() =~= names.take(i as int));
                assert(names.take(i + 1).last() == key@);
                assert(names.take(i as int).contains(key@) <==> names.take(i as int).to_set().contains(key@));
            }
            let removed = self.directory.remove(key.as_str());
            if let Some(loc) = removed {
                self.release_relative(&loc);
                proof {
                    lemma_release_key(
                        old(self).free_map(),
                        old(self).entries(),
                        names.take(i as int).to_set(),
                        key@,
                        old(self).data_offset(),
                        old(self).alloc_block_size(),
                    );
                    lemma_wrap_add(removed_bytes(old(self).entries(), names.take(i as int)), bytes, loc.size as nat);
                }
                count = count + 1;
                bytes = bytes.wrapping_add(loc.size as u64);
                let mut k = String::new();
                string_push_str(&mut k, key.as_str());
                let ghost before = evicted@;
                evicted.push(k);
                proof {
                    super::directory::lemma_str_seq_push(before, k);
                    lemma_push_set(str_seq(before), key@);
                    assert(!str_seq(before).contains(key@)) by {
                        if str_seq(before).contains(key@) {
                            assert(str_seq(before).to_set().contains(key@));
                        }
                    }
                }
            }
            proof {
                assert(names[i as int] == key@);
                assert(names.take(i + 1) =~= names.take(i as int).push(key@));
                lemma_push_set(names.take(i as int), key@);
                if removed is None {
                    lemma_release_key_noop(
                        old(self).free_map(),
                        old(self).entries(),
                        names.take(i as int).to_set(),
                        key@,
                        old(self).data_offset(),
                        old(self).alloc_block_size(),
                    );
                }
                assert(self.entries() =~= old(self).entries().remove_keys(names.take(i + 1).to_set()));
                if removed is None {
                    assert(!cur.contains_key(key@));
                    assert(!old(self).entries().contains_key(key@) || names.take(i as int).to_set().contains(key@));
                } else {
                    assert(old(self).entries().contains_key(key@));
                }
                assert(str_seq(evicted@).to_set() =~= names.take(i + 1).to_set().intersect(old(self).entries().dom()));
            }
            i = i + 1;
        }
        assert(names.take(victims@.len() as int) =~= names);
        self.tracker.cleanup_removed_keys(evicted.as_slice());
        proof {
            str_seq(evicted@).unique_seq_to_set();
        }
        (count, bytes)
    }

    /// Removes the entries that outlived `ttl_secs` at time `now` (none when
    /// it is 0), freeing their blocks (offsets relative to the data area),
    /// and makes the tracker forget them. Gives how many were removed.
    pub fn cleanup_expired(&mut self, ttl_secs: u64, now: u64) -> (n: usize)
        requires
            old(self).wf(),
        ensures
            final(self).wf(),
            final(self).spec_superblock() == old(self).spec_superblock(),
            ttl_secs == 0 ==> n == 0 && final(self).entries() == old(self).entries(),
            ttl_secs > 0 ==> final(self).entries() == old(self).entries().restrict(
                old(self).entries().dom().filter(
                    |k: Seq<char>| !expired_at(old(self).entries()[k].timestamp, ttl_secs, now),
                ),
            ),
            forall|k: Seq<char>| #[trigger] final(self).entries().contains_key(k) ==> !(ttl_secs > 0
                && expired_at(final(self).entries()[k].timestamp, ttl_secs, now)),
            final(self).alloc_block_size() == old(self).alloc_block_size(),
            final(self).spec_allocator().spec_total_blocks() == old(self).spec_allocator().spec_total_blocks(),
            ttl_secs == 0 ==> final(self).free_map() == old(self).free_map(),
            ttl_secs > 0 ==> ({
                let gone = old(self).entries().dom().filter(
                    |k: Seq<char>| expired_at(old(self).entries()[k].timestamp, ttl_secs, now),
                );
                &&& n == gone.len()
                &&& final(self).free_map() == released_keys(
                    old(self).free_map(),
                    old(self).entries(),
                    gone,
                    old(self).data_offset(),
                    old(self).alloc_block_size(),
                )
            }),
    {
        if ttl_secs == 0 {
            return 0;
        }
        let list = self.directory.iter();
        let mut expired: Vec<String> = Vec::new();
        let mut i: usize = 0;
        let ghost entries0 = self.entries();
        proof {
            super::directory::lemma_entry_list(self.spec_directory());
        }
        while i < list.len()
            invariant
                i <= list@.len(),
                list@ == old(self).spec_directory().entry_list(),
                forall|m: int| 0 <= m < expired@.len() ==> entries0.contains_key(#[trigger] expired@[m]@)
                    && expired_at(entries0[expired@[m]@].timestamp, ttl_secs, now),
                forall|j: int|
                    0 <= j < i && expired_at(#[trigger] list@[j].1.timestamp, ttl_secs, now) ==> exists|m: int|
                        0 <= m < expired@.len() && expired@[m]@ == list@[j].0@,
                entries0 == old(self).entries(),
                forall|j: int| 0 <= j < list@.len() ==> entries0.contains_key(#[trigger] list@[j].0@)
                    && entries0[list@[j].0@] == list@[j].1,
            decreases list@.len() - i,
        {
            if list[i].1.is_expired_at(ttl_secs, now) {
                let mut k = String::new();
                string_push_str(&mut k, list[i].0.as_str());
                let ghost before = expired@;
                expired.push(k);
                proof {
                    assert forall|j: int|
                        0 <= j < i + 1 && expired_at(#[trigger] list@[j].1.timestamp, ttl_secs, now) implies exists|
                        m: int,
                    | 0 <= m < expired@.len() && expired@[m]@ == list@[j].0@ by {
                        if j < i {
                            let m = choose|m: int| 0 <= m < before.len() && before[m]@ == list@[j].0@;
                            assert(expired@[m] == before[m]);
                        } else {
                            assert(expired@[before.len() as int]@ == list@[j].0@);
                        }
                    }
                }
            }
            i = i + 1;
        }
        let mut removed: usize = 0;
        let mut n: usize = 0;
        proof {
            assert(str_seq(expired@).take(0).to_set() =~= Set::<Seq<char>>::empty());
            lemma_release_none(old(self).free_map(), entries0, old(self).data_offset(), old(self).alloc_block_size());
        }
        while n < expired.len()
            invariant
                n <= expired@.len(),
                self.wf(),
                self.spec_superblock() == old(self).spec_superblock(),
                entries0 == old(self).entries(),
                forall|m: int| 0 <= m < expired@.len() ==> entries0.contains_key(#[trigger] expired@[m]@)
                    && expired_at(entries0[expired@[m]@].timestamp, ttl_secs, now),
                self.entries() == entries0.remove_keys(str_seq(expired@).take(n as int).to_set()),
                removed <= n,
                self.alloc_block_size() == old(self).alloc_block_size(),
                self.spec_allocator().spec_total_blocks() == old(self).spec_allocator().spec_total_blocks(),
                self.free_map() == released_keys(
                    old(self).free_map(),
                    entries0,
                    str_seq(expired@).take(n as int).to_set(),
                    old(self).data_offset(),
                    old(self).alloc_block_size(),
                ),
                removed == str_seq(expired@).take(n as int).to_set().len(),
            decreases expired@.len() - n,
        {
            let ghost taken = str_seq(expired@).take(n as int).to_set();
            proof {
                super::directory::lemma_str_seq_take(expired@, n as int);
                vstd::seq_lib::seq_to_set_is_finite(str_seq(expired@).take(n as int));
                assert(str_seq(expired@)[n as int] == expired@[n as int]@);
                assert(entries0.contains_key(expired@[n as int]@));
            }
            let gone = self.directory.remove(expired[n].as_str());
            if let Some(loc) = gone {
                self.release_relative(&loc);
                proof {
                    lemma_release_key(
                        old(self).free_map(),
                        entries0,
                        taken,
                        expired@[n as int]@,
                        old(self).data_offset(),
                        old(self).alloc_block_size(),
                    );
                }
                removed = removed + 1;
            } else {
                proof {
                    lemma_release_key_noop(
                        old(self).free_map(),
                        entries0,
                        taken,
                        expired@[n as int]@,
                        old(self).data_offset(),
                        old(self).alloc_block_size(),
                    );
                    assert(taken.insert(expired@[n as int]@) =~= taken);
                }
            }
            proof {
                super::directory::lemma_str_seq_take(expired@, n as int);
                assert(str_seq(expired@).take(n + 1) =~= str_seq(expired@).take(n as int).push(expired@[n as int]@));
                lemma_push_set(str_seq(expired@).take(n as int), expired@[n as int]@);
                assert(self.entries() =~= entries0.remove_keys(str_seq(expired@).take(n + 1).to_set()));
            }
            n = n + 1;
        }
        self.tracker.cleanup_removed_keys(expired.as_slice());
        proof {
            assert(str_seq(expired@).take(expired@.len() as int) =~= str_seq(expired@));
            let gone_set = str_seq(expired@).to_set();
            assert forall|k: Seq<char>| gone_set.contains(k) <==> entries0.contains_key(k) && expired_at(
                entries0[k].timestamp,
                ttl_secs,
                now,
            ) by {
                if gone_set.contains(k) {
                    let m = choose|m: int| 0 <= m < str_seq(expired@).len() && str_seq(expired@)[m] == k;
                    assert(str_seq(expired@)[m] == expired@[m]@);
                }
                if entries0.contains_key(k) && expired_at(entries0[k].timestamp, ttl_secs, now) {
                    super::directory::lemma_entry_list(old(self).spec_directory());
                    let j = choose|j: int| 0 <= j < list@.len() && (#[trigger] list@[j]).0@ == k;
                    let m = choose|m: int| 0 <= m < expired@.len() && expired@[m]@ == list@[j].0@;
                    assert(str_seq(expired@)[m] == k);
                }
            }
            assert(self.entries() =~= entries0.restrict(
                entries0.dom().filter(|k: Seq<char>| !expired_at(entries0[k].timestamp, ttl_secs, now)),
            ));
            assert(gone_set =~= entries0.dom().filter(|k: Seq<char>| expired_at(entries0[k].timestamp, ttl_secs, now)));
        }
        removed
    }

    /// Starts moving an entry at `old_location` whose `data_len` bytes were
    /// read and checked: its blocks are released and a first-fit run for the
    /// data is taken. When none is found the old blocks are taken back and
    /// `None` is given.
    pub fn begin_move(&mut self, old_location: &DiskLocation, data_len: usize) -> (r: Option<MovePlan>)
        requires
            old(self).wf(),
            old_location.offset >= old(self).data_offset(),
            blocks_for(data_len as nat, old(self).alloc_block_size()) == 0 ==> exists|p: int|
                #[trigger] fits_at(
                    released(
                        old(self).free_map(),
                        (old_location.offset - old(self).data_offset()) as u64,
                        blocks_for(old_location.size as nat, old(self).alloc_block_size()),
                        old(self).alloc_block_size(),
                    ),
                    p,
                    1,
                ),
        ensures
            final(self).wf(),
            final(self).spec_superblock() == old(self).spec_superblock(),
            final(self).spec_directory() == old(self).spec_directory(),
            final(self).spec_tracker() == old(self).spec_tracker(),
            final(self).alloc_block_size() == old(self).alloc_block_size(),
            final(self).spec_allocator().spec_total_blocks() == old(self).spec_allocator().spec_total_blocks(),
            r matches Some(plan) ==> plan.new_offset == old(self).data_offset() + plan.new_relative
                && plan.new_blocks == blocks_for(data_len as nat, old(self).alloc_block_size())
                && plan.old_relative == old_location.offset - old(self).data_offset()
                && plan.old_blocks == blocks_for(old_location.size as nat, old(self).alloc_block_size()),
            ({
                let bs = old(self).alloc_block_size();
                let rel = (old_location.offset - old(self).data_offset()) as u64;
                let old_blocks = blocks_for(old_location.size as nat, bs);
                let new_blocks = blocks_for(data_len as nat, bs);
                let freed = released(old(self).free_map(), rel, old_blocks, bs);
                let m = search_len(new_blocks as int);
                &&& r is Some <==> exists|p: int| fits_at(freed, p, m)
                &&& r matches Some(plan) ==> {
                    let p = super::allocator::first_fit(freed, m);
                    &&& plan.new_relative == p * bs
                    &&& final(self).free_map() == set_range(freed, p, p + new_blocks, false)
                }
                &&& r is None ==> final(self).free_map() == reclaimed(freed, rel, old_blocks, bs)
            }),
    {
        let data_offset = self.superblock.data_offset();
        let bs = self.allocator.block_size();
        let old_relative = old_location.offset - data_offset;
        let old_blocks = block_count(old_location.size as usize, bs);
        self.release(old_relative, old_blocks);
        let new_blocks = block_count(data_len, bs);
        let ghost fm = self.free_map();
        match self.allocator.allocate(new_blocks) {
            Ok(loc) => {
                proof {
                    let p = super::allocator::first_fit(fm, search_len(new_blocks as int));
                    assert(p < old(self).spec_allocator().spec_total_blocks()) by {
                        assert(super::allocator::is_first_fit(fm, p, search_len(new_blocks as int)));
                    }
                    lemma_mul_le(p, old(self).spec_allocator().spec_total_blocks() as int, old(self).alloc_block_size() as int);
                }
                Some(
                    MovePlan {
                        new_offset: data_offset + loc.offset,
                        new_relative: loc.offset,
                        new_blocks,
                        old_relative,
                        old_blocks,
                    },
                )
            },
            Err(_) => {
                self.reclaim(old_relative, old_blocks);
                None
            },
        }
    }

    /// Undoes a move whose write failed: the new blocks are freed and the
    /// old ones taken back.
    pub fn abort_move(&mut self, plan: &MovePlan)
        requires
            old(self).wf(),
        ensures
            final(self).wf(),
            final(self).spec_superblock() == old(self).spec_superblock(),
            final(self).spec_directory() == old(self).spec_directory(),
            final(self).spec_tracker() == old(self).spec_tracker(),
            final(self).alloc_block_size() == old(self).alloc_block_size(),
            final(self).spec_allocator().spec_total_blocks() == old(self).spec_allocator().spec_total_blocks(),
            final(self).free_map() == reclaimed(
                released(old(self).free_map(), plan.new_relative, plan.new_blocks as nat, old(self).alloc_block_size()),
                plan.old_relative,
                plan.old_blocks as nat,
                old(self).alloc_block_size(),
            ),
    {
        self.release(plan.new_relative, plan.new_blocks);
        self.reclaim(plan.old_relative, plan.old_blocks);
    }

    /// Completes a move: `key` is now at `location`.
    pub fn finish_move(&mut self, key: String, location: DiskLocation)
        requires
            old(self).wf(),
        ensures
            final(self).wf(),
            final(self).spec_superblock() == old(self).spec_superblock(),
            final(self).spec_allocator() == old(self).spec_allocator(),
            final(self).spec_tracker() == old(self).spec_tracker(),
            final(self).entries() == old(self).entries().insert(key@, location),
    {
        self.directory.insert(key, location);
    }

    /// Replaces the directory with one read back from the device.
    pub fn replace_directory(&mut self, directory: CacheDirectory)
        requires
            old(self).wf(),
            directory.wf(),
        ensures
            final(self).wf(),
            final(self).spec_directory() == directory,
            final(self).spec_superblock() == old(self).spec_superblock(),
            final(self).spec_allocator() == old(self).spec_allocator(),
            final(self).spec_tracker() == old(self).spec_tracker(),
    {
        self.directory = directory;
    }

    /// After a restart, keeps the entries whose data read back intact
    /// (`intact[i]` for the `i`-th entry of the directory's list) and lie in
    /// the data area, marking their blocks used (blocks of the superblock's
    /// size, offsets relative to the data area); an entry whose blocks run
    /// past the end of the area is dropped too. Gives how many were kept.
    pub fn rebuild_allocation(&mut self, intact: &[bool]) -> (kept: usize)
        requires
            old(self).wf(),
            intact@.len() == old(self).spec_directory().entry_list().len(),
        ensures
            final(self).wf(),
            final(self).spec_superblock() == old(self).spec_superblock(),
            final(self).spec_tracker() == old(self).spec_tracker(),
            forall|k: Seq<char>| #[trigger] final(self).entries().contains_key(k) ==> old(self).entries().contains_key(k)
                && final(self).entries()[k] == old(self).entries()[k],
            forall|j: int|
                0 <= j < intact@.len() ==> (final(self).entries().contains_key(
                    #[trigger] old(self).spec_directory().entry_list()[j].0@,
                ) <==> kept_on_rebuild(
                    old(self).spec_directory().entry_list()[j].1,
                    intact@[j],
                    old(self).data_offset(),
                    old(self).spec_superblock().spec_block_size() as nat,
                    old(self).alloc_block_size(),
                    old(self).spec_allocator().spec_total_blocks(),
                )),
            kept <= intact@.len(),
            kept == kept_count(
                old(self).spec_directory().entry_list(),
                intact@,
                old(self).data_offset(),
                old(self).spec_superblock().spec_block_size() as nat,
                old(self).alloc_block_size(),
                old(self).spec_allocator().spec_total_blocks(),
                intact@.len() as int,
            ),
            final(self).alloc_block_size() == old(self).alloc_block_size(),
            final(self).spec_allocator().spec_total_blocks() == old(self).spec_allocator().spec_total_blocks(),
            final(self).free_map() == reserved_on_rebuild(
                old(self).free_map(),
                old(self).spec_directory().entry_list(),
                intact@,
                old(self).data_offset(),
                old(self).spec_superblock().spec_block_size() as nat,
                old(self).alloc_block_size(),
                intact@.len() as int,
            ),
    {
        let data_offset = self.superblock.data_offset();
        let sb_bs = self.superblock.block_size() as usize;
        let alloc_bs = self.allocator.block_size();
        let list = self.directory.iter();
        let mut corrupted: Vec<String> = Vec::new();
        let mut kept: usize = 0;
        let mut i: usize = 0;
        let ghost mut origin: Seq<int> = Seq::empty();
        proof {
            super::directory::lemma_entry_list(self.spec_directory());
        }
        while i < list.len()
            invariant
                i <= list@.len(),
                list@ == old(self).spec_directory().entry_list(),
                intact@.len() == list@.len(),
                self.wf(),
                self.spec_superblock() == old(self).spec_superblock(),
                self.spec_directory() == old(self).spec_directory(),
                self.spec_tracker() == old(self).spec_tracker(),
                data_offset == self.data_offset(),
                sb_bs == self.spec_superblock().spec_block_size(),
                alloc_bs == self.alloc_block_size(),
                kept <= i,
                self.alloc_block_size() == old(self).alloc_block_size(),
                self.spec_allocator().spec_total_blocks() == old(self).spec_allocator().spec_total_blocks(),
                old(self).free_map().len() == old(self).spec_allocator().spec_total_blocks(),
                kept == kept_count(list@, intact@, data_offset, sb_bs as nat, alloc_bs as nat, old(self).free_map().len(), i as int),
                self.free_map() == reserved_on_rebuild(old(self).free_map(), list@, intact@, data_offset, sb_bs as nat, alloc_bs as nat, i as int),
                forall|j: int|
                    0 <= j < i && !kept_on_rebuild(list@[j].1, intact@[j], data_offset, sb_bs as nat, alloc_bs as nat, old(self).free_map().len())
                        ==> exists|m: int| 0 <= m < corrupted@.len() && (#[trigger] corrupted@[m])@ == (#[trigger] list@[j]).0@,
                origin.len() == corrupted@.len(),
                forall|m: int|
                    0 <= m < corrupted@.len() ==> 0 <= #[trigger] origin[m] < i && !kept_on_rebuild(
                        list@[origin[m]].1,
                        intact@[origin[m]],
                        data_offset,
                        sb_bs as nat,
                        alloc_bs as nat,
                        old(self).free_map().len(),
                    ) && corrupted@[m]@ == list@[origin[m]].0@,
            decreases list@.len() - i,
        {
            proof {
                lemma_reserve_step(old(self).free_map(), list@, intact@, data_offset, sb_bs as nat, alloc_bs as nat, i as int);
            }
            let loc = list[i].1;
            let keep = reserve_entry(&mut self.allocator, data_offset, &loc, intact[i], sb_bs);
            if keep {
                kept = kept + 1;
            }
            let bad = !keep;
            if bad {
                let mut k = String::new();
                string_push_str(&mut k, list[i].0.as_str());
                let ghost before = corrupted@;
                corrupted.push(k);
                proof {
                    assert(corrupted@[before.len() as int]@ == list@[i as int].0@);
                    assert forall|j: int|
                        0 <= j < i + 1 && !kept_on_rebuild(list@[j].1, intact@[j], data_offset, sb_bs as nat, alloc_bs as nat, old(self).free_map().len())
                            implies exists|m: int| 0 <= m < corrupted@.len() && (#[trigger] corrupted@[m])@ == (#[trigger] list@[j]).0@ by {
                        if j < i {
                            let m = choose|m: int| 0 <= m < before.len() && (#[trigger] before[m])@ == list@[j].0@;
                            assert(corrupted@[m] == before[m]);
                        }
                    }
                    let ghost old_origin = origin;
                    origin = origin.push(i as int);
                    assert forall|m: int| 0 <= m < corrupted@.len() implies 0 <= #[trigger] origin[m] < i + 1
                        && !kept_on_rebuild(
                        list@[origin[m]].1,
                        intact@[origin[m]],
                        data_offset,
                        sb_bs as nat,
                        alloc_bs as nat,
                        old(self).free_map().len(),
                    ) && corrupted@[m]@ == list@[origin[m]].0@ by {
                        if m < before.len() {
                            assert(corrupted@[m] == before[m]);
                            assert(origin[m] == old_origin[m]);
                        }
                    }
                }
            }
            i = i + 1;
        }
        let ghost alloc1 = self.spec_allocator();
        let ghost base = self.entries();
        let mut n: usize = 0;
        while n < corrupted.len()
            invariant
                n <= corrupted@.len(),
                self.wf(),
                self.spec_superblock() == old(self).spec_superblock(),
                self.spec_tracker() == old(self).spec_tracker(),
                base == old(self).entries(),
                self.entries() == base.remove_keys(str_seq(corrupted@).take(n as int).to_set()),
                self.spec_allocator() == alloc1,
            decreases corrupted@.len() - n,
        {
            self.directory.remove(corrupted[n].as_str());
            proof {
                super::directory::lemma_str_seq_take(corrupted@, n as int);
                assert(str_seq(corrupted@).take(n + 1) =~= str_seq(corrupted@).take(n as int).push(corrupted@[n as int]@));
                lemma_push_set(str_seq(corrupted@).take(n as int), corrupted@[n as int]@);
                assert(self.entries() =~= base.remove_keys(str_seq(corrupted@).take(n + 1).to_set()));
            }
            n = n + 1;
        }
        proof {
            assert(str_seq(corrupted@).take(corrupted@.len() as int) =~= str_seq(corrupted@));
            super::directory::lemma_entry_list(old(self).spec_directory());
            assert forall|j: int| 0 <= j < intact@.len() implies (self.entries().contains_key(#[trigger] list@[j].0@)
                <==> kept_on_rebuild(list@[j].1, intact@[j], data_offset, sb_bs as nat, alloc_bs as nat, old(self).free_map().len())) by {
                if !kept_on_rebuild(list@[j].1, intact@[j], data_offset, sb_bs as nat, alloc_bs as nat, old(self).free_map().len()) {
                    let m = choose|m: int| 0 <= m < corrupted@.len() && (#[trigger] corrupted@[m])@ == list@[j].0@;
                    assert(str_seq(corrupted@)[m] == list@[j].0@);
                    assert(str_seq(corrupted@).to_set().contains(list@[j].0@));
                } else {
                    if str_seq(corrupted@).to_set().contains(list@[j].0@) {
                        let m = choose|m: int| 0 <= m < str_seq(corrupted@).len() && str_seq(corrupted@)[m] == list@[j].0@;
                        assert(str_seq(corrupted@)[m] == corrupted@[m]@);
                        let j2 = origin[m];
                        if j2 < j {
                            assert(list@[j2].0@ != list@[j].0@);
                        } else if j < j2 {
                            assert(list@[j].0@ != list@[j2].0@);
                        }
                    }
                    assert(base.contains_key(list@[j].0@));
                }
            }
        }
        kept
    }

    /// Starts a scan of the device after the directory was lost: the
    /// directory is emptied and all blocks (of the superblock's size) are
    /// free.
    pub fn reset_for_scan(&mut self)
        requires
            old(self).wf(),
            old(self).spec_superblock().spec_total_blocks() <= usize::MAX / 8,
            old(self).spec_superblock().spec_total_blocks() * old(self).spec_superblock().spec_block_size()
                <= usize::MAX,
            old(self).data_offset() + old(self).spec_superblock().spec_total_blocks()
                * old(self).spec_superblock().spec_block_size() <= u64::MAX,
        ensures
            final(self).wf(),
            final(self).spec_superblock() == old(self).spec_superblock(),
            final(self).spec_tracker() == old(self).spec_tracker(),
            final(self).entries() == Map::<Seq<char>, DiskLocation>::empty(),
            final(self).alloc_block_size() == old(self).spec_superblock().spec_block_size(),
            final(self).spec_allocator().spec_total_blocks() == old(self).spec_superblock().spec_total_blocks(),
            final(self).free_map() == Seq::new(old(self).spec_superblock().spec_total_blocks() as nat, |i: int| true),
    {
        let bs = self.superblock.block_size() as usize;
        let total = self.superblock.total_blocks() as usize;
        self.directory = CacheDirectory::new();
        self.allocator = BlockAllocator::new(bs, total);
    }

    /// Marks the blocks of an entry found by the scan at block `block_idx`
    /// holding `data_size` bytes as used (blocks of the superblock's size); a
    /// range past the end of the area is left alone.
    pub fn mark_scanned(&mut self, block_idx: usize, data_size: u32)
        requires
            old(self).wf(),
            block_idx < old(self).spec_allocator().spec_total_blocks(),
            old(self).alloc_block_size() == old(self).spec_superblock().spec_block_size(),
        ensures
            final(self).wf(),
            final(self).spec_superblock() == old(self).spec_superblock(),
            final(self).spec_directory() == old(self).spec_directory(),
            final(self).spec_tracker() == old(self).spec_tracker(),
            ({
                let bs = old(self).alloc_block_size();
                let blocks = blocks_for(data_size as nat, bs);
                if block_idx + blocks <= old(self).spec_allocator().spec_total_blocks() {
                    final(self).free_map() == set_range(old(self).free_map(), block_idx as int, block_idx + blocks, false)
                } else {
                    final(self).free_map() == old(self).free_map()
                }
            }),
    {
        let bs = self.allocator.block_size();
        proof {
            lemma_mul_le(block_idx as int, self.spec_allocator().spec_total_blocks() as int, bs as int);
        }
        let relative = (block_idx * bs) as u64;
        let blocks = block_count(data_size as usize, bs);
        proof {
            assert((block_idx * bs) / (bs as int) == block_idx) by (nonlinear_arith)
                requires
                    bs > 0,
            ;
            assert(block_idx * bs <= usize::MAX);
            assert((relative as usize) == block_idx * bs);
        }
        assert(blocks == blocks_for(data_size as nat, bs as nat));
        proof {
            let t = self.spec_allocator().spec_total_blocks() as int;
            assert(t <= t * (bs as int)) by (nonlinear_arith)
                requires
                    bs >= 1,
                    t >= 0,
            ;
        }
        if blocks <= usize::MAX - block_idx {
            let r = self.allocator.mark_used(relative, blocks);
            assert((relative as usize) as int / (bs as int) == block_idx);
            if r.is_ok() {
                assert(block_idx + blocks <= old(self).spec_allocator().spec_total_blocks());
            } else {
                assert(!(block_idx + blocks <= old(self).spec_allocator().spec_total_blocks()));
            }
        }
    }
}

/// The bytes written to the metadata area: the length of the encoded
/// directory as 8 little-endian bytes, then the encoding.
pub open spec fn metadata_frame(encoded: Seq<u8>) -> Seq<u8> {
    spec_u64_to_le_bytes(encoded.len() as u64) + encoded
}

/// Frames an encoded directory for the metadata area of `capacity` bytes;
/// `MetadataTooLarge` when the frame does not fit.
pub fn frame_metadata(encoded: &[u8], capacity: u64) -> (r: Result<Vec<u8>, RawDiskError>)
    requires
        encoded@.len() + 8 <= usize::MAX,
    ensures
        r is Ok <==> encoded@.len() + 8 <= capacity,
        r matches Ok(b) ==> b@ == metadata_frame(encoded@),
        r matches Err(e) ==> e == (RawDiskError::MetadataTooLarge {
            size: (encoded@.len() + 8) as usize,
            max_size: capacity as usize,
        }),
{
    let total = 8 + encoded.len();
    if total as u64 > capacity {
        return Err(RawDiskError::MetadataTooLarge { size: total, max_size: #[verifier::truncate] (capacity as usize) });
    }
    let mut out = u64_to_le_bytes(encoded.len() as u64);
    let ghost head = out@;
    let mut i: usize = 0;
    while i < encoded.len()
        invariant
            i <= encoded@.len(),
            out@ == head + encoded@.take(i as int),
        decreases encoded@.len() - i,
    {
        out.push(encoded[i]);
        assert(encoded@.take(i as int).push(encoded@[i as int]) =~= encoded@.take(i + 1));
        i = i + 1;
    }
    assert(encoded@.take(encoded@.len() as int) =~= encoded@);
    Ok(out)
}

/// The length that a metadata header announces, when it can be read back:
/// at least 8 bytes, not zero and not more than the area's `capacity`.
pub open spec fn announced_length(header: Seq<u8>, capacity: u64) -> Option<usize> {
    if header.len() < 8 {
        None
    } else {
        let n = spec_u64_from_le_bytes(header.subrange(0, 8)) as usize;
        if n == 0 || n > (capacity as usize) {
            None
        } else {
            Some(n)
        }
    }
}

/// Reads the length from a metadata header.
pub fn metadata_length(header: &[u8], capacity: u64) -> (r: Option<usize>)
    ensures
        r == announced_length(header@, capacity),
{
    if header.len() < 8 {
        return None;
    }
    let n = #[verifier::truncate] (u64_from_le_bytes(vstd::slice::slice_subrange(header, 0, 8)) as usize);
    if n == 0 || n > #[verifier::truncate] (capacity as usize) {
        None
    } else {
        Some(n)
    }
}

} // verus!

verus! {

/// A framed directory reads back: the header of the frame announces the
/// length of the encoding (when the encoding is not empty and the frame fits
/// the area), and the encoding follows the 8 header bytes unchanged.
pub proof fn law_metadata_frame_roundtrip(encoded: Seq<u8>, capacity: u64)
    requires
        encoded.len() > 0,
        encoded.len() + 8 <= capacity,
        capacity <= usize::MAX,
    ensures
        announced_length(metadata_frame(encoded), capacity) == Some(encoded.len() as usize),
        metadata_frame(encoded).subrange(8, 8 + encoded.len() as int) == encoded,
{
    vstd::bytes::lemma_auto_spec_u64_to_from_le_bytes();
    let f = metadata_frame(encoded);
    let h = spec_u64_to_le_bytes(encoded.len() as u64);
    assert(h.len() == 8);
    assert(f.subrange(0, 8) =~= h);
    assert(f.subrange(8, 8 + encoded.len() as int) =~= encoded);
}

} // verus!
