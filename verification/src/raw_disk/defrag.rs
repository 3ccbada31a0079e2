//! Defragmentation: measuring the gaps between stored entries and choosing
//! entries that can move into earlier gaps.

use vstd::prelude::*;
use super::directory::CacheDirectory;
use super::types::DiskLocation;

verus! {

/// Regions `(offset relative to the data area, size)` of the entries.
pub open spec fn rel_regions(list: Seq<(String, DiskLocation)>, data_offset: u64) -> Seq<(u64, u64)> {
    Seq::new(list.len(), |i: int| ((list[i].1.offset - data_offset) as u64, list[i].1.size as u64))
}

/// Position of the first region with the smallest offset.
pub open spec fn first_lowest(s: Seq<(u64, u64)>) -> int
    decreases s.len(),
{
    if s.len() <= 1 {
        0
    } else {
        let p = first_lowest(s.drop_last());
        if s.last().0 < s[p].0 {
            s.len() - 1
        } else {
            p
        }
    }
}

pub proof fn lemma_first_lowest(s: Seq<(u64, u64)>)
    requires
        s.len() > 0,
    ensures
        0 <= first_lowest(s) < s.len(),
        forall|j: int| 0 <= j < s.len() ==> s[first_lowest(s)].0 <= #[trigger] s[j].0,
    decreases s.len(),
{
    if s.len() > 1 {
        let d = s.drop_last();
        lemma_first_lowest(d);
        let p = first_lowest(d);
        assert(d[p] == s[p]);
        assert forall|j: int| 0 <= j < s.len() implies s[first_lowest(s)].0 <= #[trigger] s[j].0 by {
            if j < s.len() - 1 {
                assert(d[j] == s[j]);
                assert(d[p].0 <= d[j].0);
            }
        }
    }
}

/// The regions ordered by offset, lowest first; equal offsets keep their
/// order (a stable sort).
pub open spec fn sort_by_offset(s: Seq<(u64, u64)>) -> Seq<(u64, u64)>
    decreases s.len(),
{
    if s.len() == 0 {
        s
    } else {
        let p = first_lowest(s);
        proof {
            lemma_first_lowest(s);
        }
        seq![s[p]] + sort_by_offset(s.remove(p))
    }
}

/// Sizes of the gaps before, between and (when `with_end`) after the
/// regions, walking them in order from `prev_end`: a gap lies wherever a
/// region starts past the end of the region before it.
pub open spec fn gap_sizes(s: Seq<(u64, u64)>, prev_end: int, total: int, with_end: bool) -> Seq<usize>
    decreases s.len(),
{
    if s.len() == 0 {
        if with_end && prev_end < total {
            seq![(total - prev_end) as usize]
        } else {
            Seq::empty()
        }
    } else {
        let g = if s[0].0 > prev_end {
            seq![(s[0].0 - prev_end) as usize]
        } else {
            Seq::empty()
        };
        g + gap_sizes(s.drop_first(), s[0].0 + s[0].1, total, with_end)
    }
}

/// Sum of the sizes.
pub open spec fn sum_sizes(s: Seq<usize>) -> int
    decreases s.len(),
{
    if s.len() == 0 {
        0
    } else {
        sum_sizes(s.drop_last()) + s.last()
    }
}

/// The largest size (0 when there is none).
pub open spec fn max_size(s: Seq<usize>) -> int
    decreases s.len(),
{
    if s.len() == 0 {
        0
    } else if s.last() > max_size(s.drop_last()) {
        s.last() as int
    } else {
        max_size(s.drop_last())
    }
}

/// Sum of the region sizes.
pub open spec fn used_space(s: Seq<(u64, u64)>) -> int
    decreases s.len(),
{
    if s.len() == 0 {
        0
    } else {
        used_space(s.drop_last()) + s.last().1
    }
}

/// Whether no offset lies before the data area and no region end overflows.
pub open spec fn regions_well_placed(list: Seq<(String, DiskLocation)>, data_offset: u64) -> bool {
    forall|i: int|
        0 <= i < list.len() ==> #[trigger] list[i].1.offset >= data_offset && list[i].1.offset
            - data_offset + list[i].1.size <= u64::MAX
}

/// The two quantities that fragmentation is measured from: the space lost in
/// gaps other than the largest one, and the space in use.
#[derive(Debug, Clone, Copy, PartialEq, Eq)]
pub struct FragmentationParts {
    /// Gap space other than the largest gap.
    pub wasted: usize,
    /// Space in use by entries.
    pub used: u64,
}

proof fn lemma_sort_by_offset_len(s: Seq<(u64, u64)>)
    ensures
        sort_by_offset(s).len() == s.len(),
        forall|x: (u64, u64)| sort_by_offset(s).contains(x) <==> s.contains(x),
    decreases s.len(),
{
    if s.len() > 0 {
        lemma_first_lowest(s);
        let p = first_lowest(s);
        lemma_sort_by_offset_len(s.remove(p));
        assert forall|x: (u64, u64)| sort_by_offset(s).contains(x) <==> s.contains(x) by {
            let r = sort_by_offset(s.remove(p));
            if s.contains(x) {
                let i = choose|i: int| 0 <= i < s.len() && s[i] == x;
                if i == p {
                    assert(sort_by_offset(s)[0] == x);
                } else {
                    let j = if i < p { i } else { i - 1 };
                    assert(s.remove(p)[j] == x);
                    assert(s.remove(p).contains(x));
                    assert(r.contains(x));
                    let k = choose|k: int| 0 <= k < r.len() && r[k] == x;
                    assert(sort_by_offset(s)[k + 1] == x);
                }
            }
            if sort_by_offset(s).contains(x) {
                let k = choose|k: int| 0 <= k < sort_by_offset(s).len() && sort_by_offset(s)[k] == x;
                if k == 0 {
                    assert(s[p] == x);
                } else {
                    assert(r[k - 1] == x);
                    assert(s.remove(p).contains(x));
                    let j = choose|j: int| 0 <= j < s.remove(p).len() && s.remove(p)[j] == x;
                    let i = if j < p { j } else { j + 1 };
                    assert(s[i] == x);
                }
            }
        }
    }
}

/// Sorts regions by offset, stably.
fn sort_regions(v: Vec<(u64, u64)>) -> (r: Vec<(u64, u64)>)
    ensures
        r@ == sort_by_offset(v@),
{
    let mut rem = v;
    let ghost orig = rem@;
    let mut out: Vec<(u64, u64)> = Vec::new();
    while rem.len() > 0
        invariant
            out@ + sort_by_offset(rem@) == sort_by_offset(orig),
        decreases rem@.len(),
    {
        let ghost rv = rem@;
        proof {
            lemma_first_lowest(rv);
        }
        let mut p: usize = 0;
        let mut q: usize = 1;
        while q < rem.len()
            invariant
                rv == rem@,
                rem@.len() > 0,
                0 <= p < q <= rem@.len(),
                p == first_lowest(rv.take(q as int)),
            decreases rem@.len() - q,
        {
            assert(rv.take(q + 1).drop_last() =~= rv.take(q as int));
            proof {
                lemma_first_lowest(rv.take(q as int));
            }
            if rem[q].0 < rem[p].0 {
                p = q;
            }
            q = q + 1;
        }
        assert(rv.take(rem@.len() as int) =~= rv);
        let x = rem.remove(p);
        let ghost before = out@;
        out.push(x);
        proof {
            assert(sort_by_offset(rv) == seq![rv[p as int]] + sort_by_offset(rv.remove(p as int)));
            assert(out@ + sort_by_offset(rem@) =~= before + sort_by_offset(rv));
        }
    }
    assert(out@ + sort_by_offset(rem@) =~= out@);
    out
}

/// Regions of the entries, relative to the data area.
fn regions_of(list: &[(String, DiskLocation)], data_offset: u64) -> (r: Vec<(u64, u64)>)
    requires
        regions_well_placed(list@, data_offset),
    ensures
        r@ == rel_regions(list@, data_offset),
{
    let mut r: Vec<(u64, u64)> = Vec::new();
    let mut i: usize = 0;
    while i < list.len()
        invariant
            i <= list@.len(),
            regions_well_placed(list@, data_offset),
            r@ == rel_regions(list@, data_offset).take(i as int),
        decreases list@.len() - i,
    {
        assert(list@[i as int].1.offset >= data_offset);
        r.push((list[i].1.offset - data_offset, list[i].1.size as u64));
        assert(r@ =~= rel_regions(list@, data_offset).take(i + 1));
        i = i + 1;
    }
    assert(rel_regions(list@, data_offset).take(list@.len() as int) =~= rel_regions(list@, data_offset));
    r
}

/// Whether every region ends within 64 bits.
pub open spec fn ends_fit(s: Seq<(u64, u64)>) -> bool {
    forall|i: int| 0 <= i < s.len() ==> (#[trigger] s[i]).0 + s[i].1 <= u64::MAX
}

proof fn lemma_ends_fit_sorted(s: Seq<(u64, u64)>)
    requires
        ends_fit(s),
    ensures
        ends_fit(sort_by_offset(s)),
{
    lemma_sort_by_offset_len(s);
    assert forall|i: int| 0 <= i < sort_by_offset(s).len() implies (#[trigger] sort_by_offset(s)[i]).0
        + sort_by_offset(s)[i].1 <= u64::MAX by {
        assert(sort_by_offset(s).contains(sort_by_offset(s)[i]));
        assert(s.contains(sort_by_offset(s)[i]));
        let j = choose|j: int| 0 <= j < s.len() && s[j] == sort_by_offset(s)[i];
        assert(s[j].0 + s[j].1 <= u64::MAX);
    }
}

/// The gaps of sorted regions.
fn gaps_of(s: &Vec<(u64, u64)>, total: u64, with_end: bool) -> (g: Vec<usize>)
    requires
        ends_fit(s@),
    ensures
        g@ == gap_sizes(s@, 0, total as int, with_end),
{
    let mut g: Vec<usize> = Vec::new();
    let mut prev_end: u64 = 0;
    let mut i: usize = 0;
    assert(s@.skip(0) =~= s@);
    while i < s.len()
        invariant
            i <= s@.len(),
            ends_fit(s@),
            g@ + gap_sizes(s@.skip(i as int), prev_end as int, total as int, with_end) == gap_sizes(
                s@,
                0,
                total as int,
                with_end,
            ),
        decreases s@.len() - i,
    {
        let ghost before = g@;
        let (offset, size) = s[i];
        proof {
            assert(s@.skip(i as int).drop_first() =~= s@.skip(i + 1));
            assert(s@.skip(i as int)[0] == s@[i as int]);
        }
        if offset > prev_end {
            g.push(#[verifier::truncate] ((offset - prev_end) as usize));
        }
        assert(g@ + gap_sizes(s@.skip(i + 1), offset + size, total as int, with_end) =~= before
            + gap_sizes(s@.skip(i as int), prev_end as int, total as int, with_end));
        prev_end = offset + size;
        i = i + 1;
    }
    let ghost before = g@;
    if with_end && prev_end < total {
        g.push(#[verifier::truncate] ((total - prev_end) as usize));
    }
    assert(s@.skip(s@.len() as int) =~= Seq::<(u64, u64)>::empty());
    assert(g@ =~= before + gap_sizes(s@.skip(i as int), prev_end as int, total as int, with_end));
    g
}

/// Measures fragmentation: with the regions of the entries ordered by
/// offset, the gaps before, between and after them (up to
/// `total_blocks * block_size`); `wasted` is their total less the largest
/// gap, and `used` is the space the entries take. The fragmentation ratio
/// is `wasted / used`, capped at 1 (0 when nothing is used).
pub fn fragmentation_parts(
    directory: &CacheDirectory,
    total_blocks: usize,
    block_size: usize,
    data_offset: u64,
) -> (r: FragmentationParts)
    requires
        regions_well_placed(directory.entry_list(), data_offset),
        total_blocks * block_size <= usize::MAX,
        sum_sizes(
            gap_sizes(
                sort_by_offset(rel_regions(directory.entry_list(), data_offset)),
                0,
                total_blocks * block_size,
                true,
            ),
        ) <= usize::MAX,
        used_space(rel_regions(directory.entry_list(), data_offset)) <= u64::MAX,
    ensures
        ({
            let regions = sort_by_offset(rel_regions(directory.entry_list(), data_offset));
            let gaps = gap_sizes(regions, 0, total_blocks * block_size, true);
            &&& r.wasted == sum_sizes(gaps) - max_size(gaps)
            &&& r.used == used_space(rel_regions(directory.entry_list(), data_offset))
        }),
{
    let list = directory.iter();
    let regions = regions_of(list, data_offset);
    proof {
        assert(ends_fit(regions@));
        lemma_ends_fit_sorted(regions@);
    }
    let used = used_of(&regions);
    let sorted = sort_regions(regions);
    let total_size = (total_blocks * block_size) as u64;
    let gaps = gaps_of(&sorted, total_size, true);
    let mut total_gap: usize = 0;
    let mut largest: usize = 0;
    let mut i: usize = 0;
    while i < gaps.len()
        invariant
            i <= gaps@.len(),
            sum_sizes(gaps@) <= usize::MAX,
            total_gap == sum_sizes(gaps@.take(i as int)),
            largest == max_size(gaps@.take(i as int)),
            largest <= total_gap,
        decreases gaps@.len() - i,
    {
        assert(gaps@.take(i + 1).drop_last() =~= gaps@.take(i as int));
        proof {
            lemma_sum_prefix(gaps@, i + 1);
        }
        total_gap = total_gap + gaps[i];
        if gaps[i] > largest {
            largest = gaps[i];
        }
        i = i + 1;
    }
    assert(gaps@.take(gaps@.len() as int) =~= gaps@);
    FragmentationParts { wasted: total_gap - largest, used }
}

proof fn lemma_sum_prefix(s: Seq<usize>, k: int)
    requires
        0 <= k <= s.len(),
    ensures
        sum_sizes(s.take(k)) <= sum_sizes(s),
    decreases s.len() - k,
{
    if k < s.len() {
        lemma_sum_prefix(s, k + 1);
        assert(s.take(k + 1).drop_last() =~= s.take(k));
    } else {
        assert(s.take(k) =~= s);
    }
}

proof fn lemma_used_prefix(s: Seq<(u64, u64)>, k: int)
    requires
        0 <= k <= s.len(),
    ensures
        used_space(s.take(k)) <= used_space(s),
    decreases s.len() - k,
{
    if k < s.len() {
        lemma_used_prefix(s, k + 1);
        assert(s.take(k + 1).drop_last() =~= s.take(k));
    } else {
        assert(s.take(k) =~= s);
    }
}

/// Total size of the regions.
fn used_of(s: &Vec<(u64, u64)>) -> (u: u64)
    requires
        used_space(s@) <= u64::MAX,
    ensures
        u == used_space(s@),
{
    let mut u: u64 = 0;
    let mut i: usize = 0;
    while i < s.len()
        invariant
            i <= s@.len(),
            used_space(s@) <= u64::MAX,
            u == used_space(s@.take(i as int)),
        decreases s@.len() - i,
    {
        assert(s@.take(i + 1).drop_last() =~= s@.take(i as int));
        proof {
            lemma_used_prefix(s@, i + 1);
        }
        u = u + s[i].1;
        i = i + 1;
    }
    assert(s@.take(s@.len() as int) =~= s@);
    u
}

/// Position of the first entry with the highest offset.
pub open spec fn first_highest(s: Seq<(Seq<char>, DiskLocation, u64)>) -> int
    decreases s.len(),
{
    if s.len() <= 1 {
        0
    } else {
        let p = first_highest(s.drop_last());
        if s.last().2 > s[p].2 {
            s.len() - 1
        } else {
            p
        }
    }
}

pub proof fn lemma_first_highest(s: Seq<(Seq<char>, DiskLocation, u64)>)
    requires
        s.len() > 0,
    ensures
        0 <= first_highest(s) < s.len(),
    decreases s.len(),
{
    if s.len() > 1 {
        lemma_first_highest(s.drop_last());
    }
}

/// The entries ordered by offset, highest first; equal offsets keep their
/// order (a stable sort).
pub open spec fn sort_by_offset_desc(s: Seq<(Seq<char>, DiskLocation, u64)>) -> Seq<
    (Seq<char>, DiskLocation, u64),
>
    decreases s.len(),
{
    if s.len() == 0 {
        s
    } else {
        let p = first_highest(s);
        proof {
            lemma_first_highest(s);
        }
        seq![s[p]] + sort_by_offset_desc(s.remove(p))
    }
}

/// The entries with their offsets relative to the data area.
pub open spec fn rel_entries(list: Seq<(String, DiskLocation)>, data_offset: u64) -> Seq<
    (Seq<char>, DiskLocation, u64),
> {
    Seq::new(list.len(), |i: int| (list[i].0@, list[i].1, (list[i].1.offset - data_offset) as u64))
}

/// The regions of the entries.
pub open spec fn regions_of_entries(s: Seq<(Seq<char>, DiskLocation, u64)>) -> Seq<(u64, u64)> {
    Seq::new(s.len(), |i: int| (s[i].2, s[i].1.size as u64))
}

/// The free gaps between regions ordered by offset, each as its start and
/// size, the space before the first region counted from `prev_end`.
pub open spec fn free_gaps(s: Seq<(u64, u64)>, prev_end: int) -> Seq<(u64, u64)>
    decreases s.len(),
{
    if s.len() == 0 {
        Seq::empty()
    } else {
        let g = if s[0].0 > prev_end {
            seq![(prev_end as u64, (s[0].0 - prev_end) as u64)]
        } else {
            Seq::empty()
        };
        g + free_gaps(s.drop_first(), s[0].0 + s[0].1)
    }
}

/// Every gap ends within the 64-bit offsets.
pub open spec fn gaps_fit(gaps: Seq<(u64, u64)>) -> bool {
    forall|i: int| 0 <= i < gaps.len() ==> (#[trigger] gaps[i]).0 + gaps[i].1 <= u64::MAX
}

/// Position of the first gap of at least `size` bytes that starts below
/// offset `below`.
pub open spec fn first_fitting_gap(gaps: Seq<(u64, u64)>, size: int, below: int) -> Option<int>
    decreases gaps.len(),
{
    if gaps.len() == 0 {
        None
    } else {
        match first_fitting_gap(gaps.drop_last(), size, below) {
            Some(i) => Some(i),
            None => if gaps.last().1 >= size && gaps.last().0 < below {
                Some(gaps.len() - 1)
            } else {
                None
            },
        }
    }
}

/// The entries that move, taking them in order and placing each in the
/// first gap that is large enough and starts below the entry, so that
/// entries only move towards the start of the area; the entry takes the
/// front of the gap, and a gap with less than a block left is dropped.
pub open spec fn placed_entries(entries: Seq<(Seq<char>, DiskLocation, u64)>, gaps: Seq<(u64, u64)>, block_size: int) -> Seq<
    (Seq<char>, DiskLocation),
>
    decreases entries.len(),
{
    if entries.len() == 0 {
        Seq::empty()
    } else {
        let size = entries[0].1.size as int;
        match first_fitting_gap(gaps, size, entries[0].2 as int) {
            Some(g) => {
                let left = gaps[g].1 - size;
                let gaps2 = if left < block_size {
                    gaps.remove(g)
                } else {
                    gaps.update(g, ((gaps[g].0 + size) as u64, left as u64))
                };
                seq![(entries[0].0, entries[0].1)] + placed_entries(entries.drop_first(), gaps2, block_size)
            },
            None => placed_entries(entries.drop_first(), gaps, block_size),
        }
    }
}

proof fn lemma_first_fitting_gap(gaps: Seq<(u64, u64)>, size: int, below: int)
    ensures
        first_fitting_gap(gaps, size, below) matches Some(i) ==> 0 <= i < gaps.len() && gaps[i].1 >= size
            && gaps[i].0 < below,
    decreases gaps.len(),
{
    if gaps.len() > 0 {
        lemma_first_fitting_gap(gaps.drop_last(), size, below);
    }
}

/// The free gaps between regions ordered by offset.
fn free_gaps_of(s: &Vec<(u64, u64)>) -> (g: Vec<(u64, u64)>)
    requires
        ends_fit(s@),
    ensures
        g@ == free_gaps(s@, 0),
        gaps_fit(g@),
{
    let mut g: Vec<(u64, u64)> = Vec::new();
    let mut prev_end: u64 = 0;
    let mut i: usize = 0;
    assert(s@.skip(0) =~= s@);
    while i < s.len()
        invariant
            i <= s@.len(),
            ends_fit(s@),
            g@ + free_gaps(s@.skip(i as int), prev_end as int) == free_gaps(s@, 0),
            gaps_fit(g@),
        decreases s@.len() - i,
    {
        let ghost before = g@;
        let (offset, size) = s[i];
        proof {
            assert(s@.skip(i as int).drop_first() =~= s@.skip(i + 1));
            assert(s@.skip(i as int)[0] == s@[i as int]);
        }
        if offset > prev_end {
            g.push((prev_end, offset - prev_end));
        }
        assert(g@ + free_gaps(s@.skip(i + 1), offset + size) =~= before + free_gaps(s@.skip(i as int), prev_end as int));
        assert(s@[i as int].0 + s@[i as int].1 <= u64::MAX);
        prev_end = offset + size;
        i = i + 1;
    }
    assert(s@.skip(s@.len() as int) =~= Seq::<(u64, u64)>::empty());
    assert(g@ =~= g@ + free_gaps(s@.skip(i as int), prev_end as int));
    g
}

/// Sorts entries by offset, highest first, stably.
fn sort_entries_desc(v: Vec<(String, DiskLocation, u64)>) -> (r: Vec<(String, DiskLocation, u64)>)
    ensures
        entry_view(r@) == sort_by_offset_desc(entry_view(v@)),
{
    let mut rem = v;
    let ghost orig = entry_view(rem@);
    let mut out: Vec<(String, DiskLocation, u64)> = Vec::new();
    while rem.len() > 0
        invariant
            entry_view(out@) + sort_by_offset_desc(entry_view(rem@)) == sort_by_offset_desc(orig),
        decreases rem@.len(),
    {
        let ghost rv = entry_view(rem@);
        proof {
            lemma_first_highest(rv);
        }
        let mut p: usize = 0;
        let mut q: usize = 1;
        while q < rem.len()
            invariant
                rv == entry_view(rem@),
                rem@.len() > 0,
                0 <= p < q <= rem@.len(),
                p == first_highest(rv.take(q as int)),
            decreases rem@.len() - q,
        {
            assert(rv.take(q + 1).drop_last() =~= rv.take(q as int));
            proof {
                lemma_first_highest(rv.take(q as int));
            }
            if rem[q].2 > rem[p].2 {
                p = q;
            }
            q = q + 1;
        }
        assert(rv.take(rem@.len() as int) =~= rv);
        let x = rem.remove(p);
        let ghost before = out@;
        out.push(x);
        proof {
            assert(entry_view(rem@) =~= rv.remove(p as int));
            assert(sort_by_offset_desc(rv) == seq![rv[p as int]] + sort_by_offset_desc(rv.remove(p as int)));
            assert(entry_view(out@) =~= entry_view(before).push(rv[p as int]));
            assert(entry_view(out@) + sort_by_offset_desc(entry_view(rem@)) =~= entry_view(before)
                + sort_by_offset_desc(rv));
        }
    }
    assert(entry_view(out@) + sort_by_offset_desc(entry_view(rem@)) =~= entry_view(out@));
    out
}

/// Views of entries with their relative offsets.
pub open spec fn entry_view(v: Seq<(String, DiskLocation, u64)>) -> Seq<(Seq<char>, DiskLocation, u64)> {
    Seq::new(v.len(), |i: int| (v[i].0@, v[i].1, v[i].2))
}

/// Views of chosen entries.
pub open spec fn moved_view(v: Seq<(String, DiskLocation)>) -> Seq<(Seq<char>, DiskLocation)> {
    Seq::new(v.len(), |i: int| (v[i].0@, v[i].1))
}

/// The entries with their offsets relative to the data area.
fn rel_entry_list(list: &[(String, DiskLocation)], data_offset: u64) -> (r: Vec<(String, DiskLocation, u64)>)
    requires
        regions_well_placed(list@, data_offset),
    ensures
        entry_view(r@) == rel_entries(list@, data_offset),
{
    let mut entries: Vec<(String, DiskLocation, u64)> = Vec::new();
    let mut i: usize = 0;
    while i < list.len()
        invariant
            i <= list@.len(),
            regions_well_placed(list@, data_offset),
            entry_view(entries@) == rel_entries(list@, data_offset).take(i as int),
        decreases list@.len() - i,
    {
        assert(list@[i as int].1.offset >= data_offset);
        let ghost before = entries@;
        let rel = list[i].1.offset - data_offset;
        entries.push((list[i].0.clone(), list[i].1, rel));
        proof {
            assert(entry_view(entries@) =~= entry_view(before).push((list@[i as int].0@, list@[i as int].1, rel)));
            assert(rel_entries(list@, data_offset).take(i + 1) =~= rel_entries(list@, data_offset).take(
                i as int,
            ).push(rel_entries(list@, data_offset)[i as int]));
        }
        i = i + 1;
    }
    assert(rel_entries(list@, data_offset).take(list@.len() as int) =~= rel_entries(list@, data_offset));
    entries
}

/// The regions of entries, in the entries' order.
fn entry_regions(entries: &Vec<(String, DiskLocation, u64)>) -> (r: Vec<(u64, u64)>)
    ensures
        r@ == regions_of_entries(entry_view(entries@)),
{
    let ghost ev = entry_view(entries@);
    let mut regions: Vec<(u64, u64)> = Vec::new();
    let mut k: usize = 0;
    while k < entries.len()
        invariant
            k <= entries@.len(),
            ev == entry_view(entries@),
            regions@ == regions_of_entries(ev).take(k as int),
        decreases entries@.len() - k,
    {
        regions.push((entries[k].2, entries[k].1.size as u64));
        assert(regions@ =~= regions_of_entries(ev).take(k + 1));
        k = k + 1;
    }
    assert(regions_of_entries(ev).take(entries@.len() as int) =~= regions_of_entries(ev));
    regions
}

proof fn lemma_entry_regions_fit(list: Seq<(String, DiskLocation)>, data_offset: u64)
    requires
        regions_well_placed(list, data_offset),
    ensures
        ends_fit(regions_of_entries(sort_by_offset_desc(rel_entries(list, data_offset)))),
{
    let re = rel_entries(list, data_offset);
    let ev = sort_by_offset_desc(re);
    let regions = regions_of_entries(ev);
    lemma_sort_desc_contains(re);
    assert forall|j: int| 0 <= j < regions.len() implies (#[trigger] regions[j]).0 + regions[j].1
        <= u64::MAX by {
        assert(ev.contains(ev[j]));
        assert(re.contains(ev[j]));
        let a = choose|a: int| 0 <= a < re.len() && re[a] == ev[j];
        assert(list[a].1.offset >= data_offset);
    }
}

/// Places the first `n` entries into the gaps, in order.
fn place_entries(entries: &Vec<(String, DiskLocation, u64)>, n: usize, gaps: Vec<(u64, u64)>, block_size: usize) -> (r: Vec<
    (String, DiskLocation),
>)
    requires
        n <= entries@.len(),
        gaps_fit(gaps@),
    ensures
        moved_view(r@) == placed_entries(entry_view(entries@).take(n as int), gaps@, block_size as int),
{
    let ghost ev = entry_view(entries@);
    let ghost chosen = ev.take(n as int);
    let ghost gaps0 = gaps@;
    let mut gaps = gaps;
    let mut selected: Vec<(String, DiskLocation)> = Vec::new();
    let mut e: usize = 0;
    assert(chosen.skip(0) =~= chosen);
    assert(moved_view(selected@) =~= Seq::<(Seq<char>, DiskLocation)>::empty());
    while e < n
        invariant
            e <= n <= entries@.len(),
            ev == entry_view(entries@),
            chosen == ev.take(n as int),
            moved_view(selected@) + placed_entries(chosen.skip(e as int), gaps@, block_size as int)
                == placed_entries(chosen, gaps0, block_size as int),
            gaps_fit(gaps@),
        decreases n - e,
    {
        let ghost g0 = gaps@;
        let ghost before = selected@;
        let entry_size = entries[e].1.size as u64;
        let below = entries[e].2;
        proof {
            assert(chosen.skip(e as int).drop_first() =~= chosen.skip(e + 1));
            assert(chosen.skip(e as int)[0] == ev[e as int]);
            lemma_first_fitting_gap(g0, entry_size as int, below as int);
        }
        match find_gap(&gaps, entry_size, below) {
            Some(g) => {
                selected.push((entries[e].0.clone(), entries[e].1));
                let (start, size) = gaps[g];
                let left = size - entry_size;
                if left < block_size as u64 {
                    gaps.remove(g);
                    proof {
                        assert forall|j: int| 0 <= j < gaps@.len() implies (#[trigger] gaps@[j]).0 + gaps@[j].1 <= u64::MAX by {
                            if j < g {
                                assert(gaps@[j] == g0[j]);
                            } else {
                                assert(gaps@[j] == g0[j + 1]);
                            }
                        }
                    }
                } else {
                    gaps.set(g, (start + entry_size, left));
                    proof {
                        assert forall|j: int| 0 <= j < gaps@.len() implies (#[trigger] gaps@[j]).0 + gaps@[j].1 <= u64::MAX by {
                            if j != g {
                                assert(gaps@[j] == g0[j]);
                            } else {
                                assert(g0[j].0 + g0[j].1 <= u64::MAX);
                            }
                        }
                    }
                }
                proof {
                    assert(moved_view(selected@) =~= moved_view(before).push((ev[e as int].0, ev[e as int].1)));
                    assert(moved_view(selected@) + placed_entries(chosen.skip(e + 1), gaps@, block_size as int)
                        =~= moved_view(before) + placed_entries(chosen.skip(e as int), g0, block_size as int));
                }
            },
            None => {},
        }
        e = e + 1;
    }
    assert(chosen.skip(n as int) =~= Seq::<(Seq<char>, DiskLocation, u64)>::empty());
    assert(moved_view(selected@) + placed_entries(chosen.skip(n as int), gaps@, block_size as int) =~= moved_view(selected@));
    selected
}

/// Chooses up to `max_entries` entries to move during defragmentation,
/// compacting data towards the start of the area: the entries are taken
/// from the highest offset down, and each is chosen when a gap between the
/// regions (in offset order) that starts below it is large enough for it;
/// the entry takes the front of the gap, and the gap is dropped when less
/// than a block remains of it.
pub fn select_entries_to_move(
    directory: &CacheDirectory,
    block_size: usize,
    data_offset: u64,
    max_entries: usize,
) -> (r: Vec<(String, DiskLocation)>)
    requires
        regions_well_placed(directory.entry_list(), data_offset),
    ensures
        ({
            let entries = sort_by_offset_desc(rel_entries(directory.entry_list(), data_offset));
            let gaps = free_gaps(sort_by_offset(regions_of_entries(entries)), 0);
            moved_view(r@) == placed_entries(
                entries.take(if max_entries <= entries.len() {
                    max_entries as int
                } else {
                    entries.len() as int
                }),
                gaps,
                block_size as int,
            )
        }),
{
    let list = directory.iter();
    let entries = rel_entry_list(list, data_offset);
    let entries = sort_entries_desc(entries);
    let regions = entry_regions(&entries);
    proof {
        lemma_entry_regions_fit(list@, data_offset);
        lemma_ends_fit_sorted(regions@);
    }
    let regions = sort_regions(regions);
    let gaps = free_gaps_of(&regions);
    let n = if max_entries <= entries.len() {
        max_entries
    } else {
        entries.len()
    };
    place_entries(&entries, n, gaps, block_size)
}

proof fn lemma_sort_desc_contains(s: Seq<(Seq<char>, DiskLocation, u64)>)
    ensures
        forall|x: (Seq<char>, DiskLocation, u64)| sort_by_offset_desc(s).contains(x) ==> s.contains(x),
    decreases s.len(),
{
    if s.len() > 0 {
        lemma_first_highest(s);
        let p = first_highest(s);
        lemma_sort_desc_contains(s.remove(p));
        assert forall|x: (Seq<char>, DiskLocation, u64)| sort_by_offset_desc(s).contains(x) implies s.contains(x) by {
            let r = sort_by_offset_desc(s.remove(p));
            let k = choose|k: int| 0 <= k < sort_by_offset_desc(s).len() && sort_by_offset_desc(s)[k] == x;
            if k == 0 {
                assert(s[p] == x);
            } else {
                assert(r[k - 1] == x);
                assert(r.contains(x));
                assert(s.remove(p).contains(x));
                let j = choose|j: int| 0 <= j < s.remove(p).len() && s.remove(p)[j] == x;
                let i = if j < p { j } else { j + 1 };
                assert(s[i] == x);
            }
        }
    }
}

/// Position of the first gap of at least `size` bytes that starts below
/// `below`.
fn find_gap(gaps: &Vec<(u64, u64)>, size: u64, below: u64) -> (r: Option<usize>)
    ensures
        r matches Some(i) ==> first_fitting_gap(gaps@, size as int, below as int) == Some(i as int),
        r is None ==> first_fitting_gap(gaps@, size as int, below as int) is None,
{
    let mut i: usize = 0;
    while i < gaps.len()
        invariant
            i <= gaps@.len(),
            first_fitting_gap(gaps@.take(i as int), size as int, below as int) is None,
        decreases gaps@.len() - i,
    {
        assert(gaps@.take(i + 1).drop_last() =~= gaps@.take(i as int));
        if gaps[i].1 >= size && gaps[i].0 < below {
            proof {
                lemma_fitting_prefix(gaps@, i as int + 1, size as int, below as int, i as int);
            }
            return Some(i);
        }
        i = i + 1;
    }
    assert(gaps@.take(gaps@.len() as int) =~= gaps@);
    None
}

proof fn lemma_fitting_prefix(gaps: Seq<(u64, u64)>, k: int, size: int, below: int, i: int)
    requires
        0 <= k <= gaps.len(),
        first_fitting_gap(gaps.take(k), size, below) == Some(i),
    ensures
        first_fitting_gap(gaps, size, below) == Some(i),
    decreases gaps.len() - k,
{
    if k < gaps.len() {
        let t = gaps.take(k + 1);
        assert(t.drop_last() =~= gaps.take(k));
        assert(first_fitting_gap(t, size, below) == Some(i));
        lemma_fitting_prefix(gaps, k + 1, size, below, i);
    } else {
        assert(gaps.take(k) =~= gaps);
    }
}

proof fn lemma_sum_sizes_concat(a: Seq<usize>, b: Seq<usize>)
    ensures
        sum_sizes(a + b) == sum_sizes(a) + sum_sizes(b),
    decreases b.len(),
{
    if b.len() == 0 {
        assert(a + b =~= a);
    } else {
        lemma_sum_sizes_concat(a, b.drop_last());
        assert((a + b).drop_last() =~= a + b.drop_last());
        assert((a + b).last() == b.last());
    }
}

proof fn lemma_used_space_first(s: Seq<(u64, u64)>)
    requires
        s.len() > 0,
    ensures
        used_space(s) == s[0].1 + used_space(s.drop_first()),
    decreases s.len(),
{
    if s.len() == 1 {
        assert(s.drop_first() =~= Seq::<(u64, u64)>::empty());
        assert(s.drop_last() =~= Seq::<(u64, u64)>::empty());
    } else {
        lemma_used_space_first(s.drop_last());
        assert(s.drop_last().drop_first() =~= s.drop_first().drop_last());
        assert(s.drop_first().last() == s.last());
        assert(s.drop_last()[0] == s[0]);
    }
}

/// Regions in increasing order of offset, none overlapping the next, all
/// ending within `total` bytes.
pub open spec fn regions_laid_out(s: Seq<(u64, u64)>, total: int) -> bool {
    &&& forall|i: int, j: int| 0 <= i < j < s.len() ==> (#[trigger] s[i]).0 + s[i].1 <= (#[trigger] s[j]).0
    &&& forall|i: int| 0 <= i < s.len() ==> (#[trigger] s[i]).0 + s[i].1 <= total
}

proof fn lemma_gaps_fill(s: Seq<(u64, u64)>, p: int, total: int)
    requires
        0 <= p <= total <= usize::MAX,
        regions_laid_out(s, total),
        s.len() > 0 ==> p <= s[0].0,
    ensures
        sum_sizes(gap_sizes(s, p, total, true)) + used_space(s) == total - p,
    decreases s.len(),
{
    if s.len() == 0 {
        if p < total {
            let x = (total - p) as usize;
            assert(x == total - p);
            let sq = seq![x];
            assert(sq.drop_last() =~= Seq::<usize>::empty());
            assert(sq.last() == x);
            assert(sum_sizes(sq) == sum_sizes(sq.drop_last()) + sq.last());
            assert(gap_sizes(s, p, total, true) == sq);
        }
    } else {
        let rest = s.drop_first();
        let q = s[0].0 + s[0].1;
        assert(q <= total);
        assert forall|i: int, j: int| 0 <= i < j < rest.len() implies (#[trigger] rest[i]).0 + rest[i].1 <= (
        #[trigger] rest[j]).0 by {
            assert(rest[i] == s[i + 1] && rest[j] == s[j + 1]);
        }
        assert forall|i: int| 0 <= i < rest.len() implies (#[trigger] rest[i]).0 + rest[i].1 <= total by {
            assert(rest[i] == s[i + 1]);
        }
        if rest.len() > 0 {
            assert(rest[0] == s[1]);
        }
        lemma_gaps_fill(rest, q, total);
        lemma_used_space_first(s);
        let g = if s[0].0 > p {
            seq![(s[0].0 - p) as usize]
        } else {
            Seq::<usize>::empty()
        };
        lemma_sum_sizes_concat(g, gap_sizes(rest, q, total, true));
        if s[0].0 > p {
            let x = (s[0].0 - p) as usize;
            assert(x == s[0].0 - p);
            assert(g.drop_last() =~= Seq::<usize>::empty());
            assert(g.last() == x);
            assert(sum_sizes(g) == sum_sizes(g.drop_last()) + g.last());
            assert(sum_sizes(g) == s[0].0 - p);
        } else {
            assert(sum_sizes(g) == 0);
        }
    }
}

/// The gaps and the regions together make up the whole area: for regions
/// laid out in order without overlap inside an area of `total` bytes, the
/// gaps that fragmentation counts (before the first region, between
/// regions, and after the last) and the space the regions use add up to
/// `total`, so no free run goes uncounted.
pub proof fn law_gaps_and_regions_fill_area(s: Seq<(u64, u64)>, total: int)
    requires
        0 <= total <= usize::MAX,
        regions_laid_out(s, total),
    ensures
        sum_sizes(gap_sizes(s, 0, total, true)) + used_space(s) == total,
{
    lemma_gaps_fill(s, 0, total);
}

} // verus!
