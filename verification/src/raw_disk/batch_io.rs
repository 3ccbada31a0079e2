//! Batching of disk writes and reads: a write buffer, and the merging of
//! writes and reads that lie close together.

use vstd::prelude::*;
use std::collections::VecDeque;

verus! {

/// A write waiting in the buffer.
#[derive(Debug, Clone)]
pub struct PendingWrite {
    /// Where the data goes on the device.
    pub offset: u64,
    /// The data.
    pub data: Vec<u8>,
}

/// A write as plain values: offset and bytes.
pub open spec fn write_view(w: PendingWrite) -> (u64, Seq<u8>) {
    (w.offset, w.data@)
}

/// Writes as plain values.
pub open spec fn writes_view(ws: Seq<PendingWrite>) -> Seq<(u64, Seq<u8>)> {
    Seq::new(ws.len(), |i: int| write_view(ws[i]))
}

/// Buffers writes until there are enough of them, or enough bytes.
#[derive(Debug)]
pub struct WriteBuffer {
    pending: VecDeque<PendingWrite>,
    max_batch_size: usize,
    max_buffer_bytes: usize,
    current_bytes: usize,
}

/// Counts of what the write buffer holds.
#[derive(Debug, Clone, Copy)]
pub struct BufferStats {
    /// Writes waiting.
    pub pending_operations: usize,
    /// Bytes waiting.
    pub buffered_bytes: usize,
}

impl WriteBuffer {
    /// The writes waiting, oldest first.
    pub closed spec fn pending(&self) -> Seq<(u64, Seq<u8>)> {
        writes_view(self.pending@)
    }

    /// Bytes counted as waiting.
    pub closed spec fn spec_bytes(&self) -> nat {
        self.current_bytes as nat
    }

    /// Most writes held before a flush is due.
    pub closed spec fn spec_max_batch(&self) -> nat {
        self.max_batch_size as nat
    }

    /// Most bytes held before a flush is due.
    pub closed spec fn spec_max_bytes(&self) -> nat {
        self.max_buffer_bytes as nat
    }

    /// Whether a flush is due: enough writes or enough bytes.
    pub open spec fn flush_due(&self) -> bool {
        self.pending().len() >= self.spec_max_batch() || self.spec_bytes() >= self.spec_max_bytes()
    }

    /// An empty buffer with the given limits.
    pub fn new(max_batch_size: usize, max_buffer_bytes: usize) -> (b: WriteBuffer)
        ensures
            b.pending() == Seq::<(u64, Seq<u8>)>::empty(),
            b.spec_bytes() == 0,
            b.spec_max_batch() == max_batch_size,
            b.spec_max_bytes() == max_buffer_bytes,
    {
        let b = WriteBuffer { pending: VecDeque::new(), max_batch_size, max_buffer_bytes, current_bytes: 0 };
        assert(b.pending() =~= Seq::<(u64, Seq<u8>)>::empty());
        b
    }

    /// Adds a write; whether a flush is now due.
    pub fn add(&mut self, offset: u64, data: Vec<u8>) -> (flush: bool)
        requires
            old(self).spec_bytes() + data@.len() <= usize::MAX,
        ensures
            final(self).pending() == old(self).pending().push((offset, data@)),
            final(self).spec_bytes() == old(self).spec_bytes() + data@.len(),
            final(self).spec_max_batch() == old(self).spec_max_batch(),
            final(self).spec_max_bytes() == old(self).spec_max_bytes(),
            flush == final(self).flush_due(),
    {
        let data_len = data.len();
        let ghost d = data@;
        self.pending.push_back(PendingWrite { offset, data });
        assert(writes_view(self.pending@) =~= writes_view(old(self).pending@).push((offset, d)));
        self.current_bytes = self.current_bytes + data_len;
        self.should_flush()
    }

    /// Whether a flush is due.
    pub fn should_flush(&self) -> (b: bool)
        ensures
            b == self.flush_due(),
    {
        self.pending.len() >= self.max_batch_size || self.current_bytes >= self.max_buffer_bytes
    }

    /// Takes all waiting writes, oldest first, and empties the buffer.
    pub fn drain(&mut self) -> (w: Vec<PendingWrite>)
        ensures
            writes_view(w@) == old(self).pending(),
            final(self).pending() == Seq::<(u64, Seq<u8>)>::empty(),
            final(self).spec_bytes() == 0,
            final(self).spec_max_batch() == old(self).spec_max_batch(),
            final(self).spec_max_bytes() == old(self).spec_max_bytes(),
    {
        let mut out: Vec<PendingWrite> = Vec::new();
        let ghost all = self.pending@;
        while self.pending.len() > 0
            invariant
                all == old(self).pending@,
                out@ + self.pending@ == all,
                self.max_batch_size == old(self).max_batch_size,
                self.max_buffer_bytes == old(self).max_buffer_bytes,
            decreases self.pending@.len(),
        {
            let ghost rest = self.pending@;
            let w = self.pending.pop_front().unwrap();
            assert(rest == seq![w] + self.pending@);
            out.push(w);
            assert(out@ + self.pending@ =~= all);
        }
        self.current_bytes = 0;
        assert(out@ =~= all);
        assert(writes_view(self.pending@) =~= Seq::<(u64, Seq<u8>)>::empty());
        out
    }

    /// Number of waiting writes.
    pub fn len(&self) -> (n: usize)
        ensures
            n == self.pending().len(),
    {
        self.pending.len()
    }

    /// Whether nothing waits.
    pub fn is_empty(&self) -> (b: bool)
        ensures
            b == (self.pending().len() == 0),
    {
        self.pending.len() == 0
    }

    /// Bytes waiting.
    pub fn buffered_bytes(&self) -> (n: usize)
        ensures
            n == self.spec_bytes(),
    {
        self.current_bytes
    }

    /// What the buffer holds, as counts.
    pub fn stats(&self) -> (s: BufferStats)
        ensures
            s.pending_operations == self.pending().len(),
            s.buffered_bytes == self.spec_bytes(),
    {
        BufferStats { pending_operations: self.pending.len(), buffered_bytes: self.current_bytes }
    }
}

/// `d` with `x` written over it from position `p` on, growing it where `x`
/// runs past its end.
pub open spec fn overlay(d: Seq<u8>, p: int, x: Seq<u8>) -> Seq<u8> {
    let len = if p + x.len() > d.len() {
        p + x.len()
    } else {
        d.len() as int
    };
    Seq::new(len as nat, |i: int| if p <= i < p + x.len() { x[i - p] } else { d[i] })
}

/// Merging of writes in order: a write that starts within or right at the
/// end of the current run is laid over it at its own offset; any other
/// write starts a new run.
pub open spec fn merged_writes(ws: Seq<(u64, Seq<u8>)>) -> Seq<(u64, Seq<u8>)>
    decreases ws.len(),
{
    if ws.len() == 0 {
        Seq::empty()
    } else {
        let acc = merged_writes(ws.drop_last());
        let w = ws.last();
        if acc.len() == 0 {
            seq![w]
        } else {
            let c = acc.last();
            if c.0 <= w.0 && w.0 <= c.0 + c.1.len() {
                acc.update(acc.len() - 1, (c.0, overlay(c.1, w.0 - c.0, w.1)))
            } else {
                acc.push(w)
            }
        }
    }
}

/// A disk image, byte address to byte, after one write.
pub open spec fn apply_write(image: Map<int, u8>, w: (u64, Seq<u8>)) -> Map<int, u8> {
    image.union_prefer_right(Map::new(|a: int| w.0 <= a < w.0 + w.1.len(), |a: int| w.1[a - w.0]))
}

/// A disk image after writes done in order.
pub open spec fn apply_writes(image: Map<int, u8>, ws: Seq<(u64, Seq<u8>)>) -> Map<int, u8>
    decreases ws.len(),
{
    if ws.len() == 0 {
        image
    } else {
        apply_write(apply_writes(image, ws.drop_last()), ws.last())
    }
}

/// Every write ends within the 64-bit offsets.
pub open spec fn write_ends_fit(ws: Seq<(u64, Seq<u8>)>) -> bool {
    forall|i: int| 0 <= i < ws.len() ==> (#[trigger] ws[i]).0 + ws[i].1.len() <= u64::MAX
}

/// The total length of the writes' data.
pub open spec fn total_len(ws: Seq<(u64, Seq<u8>)>) -> nat
    decreases ws.len(),
{
    if ws.len() == 0 {
        0
    } else {
        total_len(ws.drop_last()) + ws.last().1.len()
    }
}

/// Whether offsets never decrease.
pub open spec fn offsets_sorted(ws: Seq<(u64, Seq<u8>)>) -> bool {
    forall|i: int, j: int| 0 <= i <= j < ws.len() ==> ws[i].0 <= ws[j].0
}

proof fn lemma_merged_bounds(ws: Seq<(u64, Seq<u8>)>)
    requires
        offsets_sorted(ws),
        write_ends_fit(ws),
        ws.len() > 0,
    ensures
        merged_writes(ws).len() > 0,
        merged_writes(ws).len() <= ws.len(),
        merged_writes(ws).last().0 <= ws.last().0,
        merged_writes(ws).last().1.len() <= total_len(ws),
        merged_writes(ws).last().0 + merged_writes(ws).last().1.len() <= u64::MAX,
    decreases ws.len(),
{
    if ws.len() > 1 {
        let d = ws.drop_last();
        assert forall|i: int, j: int| 0 <= i <= j < d.len() implies d[i].0 <= d[j].0 by {
            assert(d[i] == ws[i] && d[j] == ws[j]);
        }
        assert forall|i: int| 0 <= i < d.len() implies (#[trigger] d[i]).0 + d[i].1.len() <= u64::MAX by {
            assert(d[i] == ws[i]);
        }
        lemma_merged_bounds(d);
        assert(d.last() == ws[ws.len() - 2]);
        assert(ws[ws.len() - 2].0 <= ws[ws.len() - 1].0);
        assert(ws.last() == ws[ws.len() - 1]);
    } else {
        assert(ws.drop_last().len() == 0);
        assert(merged_writes(ws.drop_last()) == Seq::<(u64, Seq<u8>)>::empty());
        assert(ws.last() == ws[0]);
        assert(total_len(ws) == total_len(ws.drop_last()) + ws.last().1.len());
    }
}

/// Merges writes that touch or overlap, as `merged_writes` says; the writes
/// come sorted by offset. No byte outside the writes is written.
#[verifier::spinoff_prover]
#[verifier::rlimit(30)]
pub fn merge_adjacent_writes(writes: Vec<PendingWrite>) -> (merged: Vec<PendingWrite>)
    requires
        offsets_sorted(writes_view(writes@)),
        write_ends_fit(writes_view(writes@)),
        total_len(writes_view(writes@)) <= usize::MAX,
    ensures
        writes_view(merged@) == merged_writes(writes_view(writes@)),
{
    let ghost all = writes_view(writes@);
    let mut merged: Vec<PendingWrite> = Vec::new();
    let n = writes.len();
    if n == 0 {
        assert(writes_view(merged@) =~= merged_writes(all));
        return merged;
    }
    let mut current: Option<PendingWrite> = None;
    for w in it: writes.into_iter()
        invariant
            it.seq() == writes@,
            all == writes_view(writes@),
            n == writes@.len(),
            n > 0,
            offsets_sorted(all),
            write_ends_fit(all),
            total_len(all) <= usize::MAX,
            it.index() == 0 ==> current is None && merged@.len() == 0,
            it.index() > 0 ==> (current matches Some(c) && writes_view(merged@).push(write_view(c))
                == merged_writes(all.take(it.index()))),
    {
        let ghost k = it.index();
        proof {
            assert(all.take(k + 1).drop_last() =~= all.take(k));
            assert(all.take(k + 1).last() == write_view(w));
            assert(all.take(k + 1) =~= all.take(k).push(write_view(w)));
            assert(all[k] == write_view(w));
            if k > 0 {
                let t = all.take(k);
                assert forall|a: int, b: int| 0 <= a <= b < t.len() implies t[a].0 <= t[b].0 by {
                    assert(t[a] == all[a] && t[b] == all[b]);
                }
                assert forall|a: int| 0 <= a < t.len() implies (#[trigger] t[a]).0 + t[a].1.len() <= u64::MAX by {
                    assert(t[a] == all[a]);
                }
                lemma_merged_bounds(t);
                lemma_total_prefix(all, k);
                assert(t.last().0 <= all[k].0) by {
                    assert(t.last() == all[k - 1]);
                }
            }
        }
        match current {
            None => {
                current = Some(w);
                proof {
                    assert(k == 0);
                    assert(all.take(1) =~= seq![write_view(w)]);
                    assert(seq![write_view(w)].drop_last() =~= Seq::<(u64, Seq<u8>)>::empty());
                    assert(merged_writes(Seq::<(u64, Seq<u8>)>::empty()) == Seq::<(u64, Seq<u8>)>::empty());
                    assert(merged_writes(all.take(1)) == seq![write_view(w)]);
                    assert(writes_view(merged@).push(write_view(w)) =~= seq![write_view(w)]);
                }
            },
            Some(c) => {
                let current_end = c.offset + c.data.len() as u64;
                if c.offset <= w.offset && w.offset <= current_end {
                    let p = (w.offset - c.offset) as usize;
                    let mut data = c.data;
                    let ghost d0 = data@;
                    let mut j: usize = 0;
                    while j < w.data.len()
                        invariant
                            j <= w.data@.len(),
                            p <= d0.len(),
                            d0.len() + w.data@.len() <= usize::MAX,
                            data@ == overlay(d0, p as int, w.data@.take(j as int)),
                        decreases w.data@.len() - j,
                    {
                        let ghost before = data@;
                        if p + j < data.len() {
                            data.set(p + j, w.data[j]);
                        } else {
                            data.push(w.data[j]);
                        }
                        assert(data@ =~= overlay(d0, p as int, w.data@.take(j + 1)));
                        j = j + 1;
                    }
                    assert(w.data@.take(w.data@.len() as int) =~= w.data@);
                    current = Some(PendingWrite { offset: c.offset, data });
                    proof {
                        let acc = merged_writes(all.take(k));
                        assert(acc == writes_view(merged@).push(write_view(c)));
                        assert(writes_view(merged@).push(write_view(current->Some_0)) =~= acc.update(
                            acc.len() - 1,
                            (c.offset, overlay(c.data@, w.offset - c.offset, w.data@)),
                        ));
                        assert(acc.last() == write_view(c));
                        assert(merged_writes(all.take(k + 1)) == acc.update(
                            acc.len() - 1,
                            (c.offset, overlay(c.data@, w.offset - c.offset, w.data@)),
                        ));
                    }
                } else {
                    let ghost before = merged@;
                    merged.push(c);
                    current = Some(w);
                    proof {
                        assert(writes_view(merged@) =~= writes_view(before).push(write_view(c)));
                        let acc = merged_writes(all.take(k));
                        assert(acc.last() == write_view(c));
                        assert(merged_writes(all.take(k + 1)) == acc.push(write_view(w)));
                    }
                }
            },
        }
    }
    proof {
        assert(all.take(n as int) =~= all);
    }
    match current {
        Some(c) => {
            let ghost before = merged@;
            merged.push(c);
            assert(writes_view(merged@) =~= writes_view(before).push(write_view(c)));
        },
        None => {},
    }
    merged
}

/// Writing `c` and then `w`, which starts within or right at the end of
/// `c`, leaves the same image as writing `c` with `w` laid over it.
proof fn lemma_overlay_image(image: Map<int, u8>, c: (u64, Seq<u8>), w: (u64, Seq<u8>))
    requires
        c.0 <= w.0 <= c.0 + c.1.len(),
        c.0 + c.1.len() <= u64::MAX,
        w.0 + w.1.len() <= u64::MAX,
    ensures
        apply_write(apply_write(image, c), w) == apply_write(image, (c.0, overlay(c.1, w.0 - c.0, w.1))),
{
    let m = (c.0, overlay(c.1, w.0 - c.0, w.1));
    let lhs = apply_write(apply_write(image, c), w);
    let rhs = apply_write(image, m);
    assert(m.0 + m.1.len() <= u64::MAX);
    assert forall|a: int| #[trigger] lhs.contains_key(a) <==> rhs.contains_key(a) by {}
    assert forall|a: int| lhs.contains_key(a) implies lhs[a] == rhs[a] by {
        if w.0 <= a < w.0 + w.1.len() {
            assert(m.1[a - c.0] == w.1[a - w.0]);
        } else if c.0 <= a < c.0 + c.1.len() {
            assert(m.1[a - c.0] == c.1[a - c.0]);
        }
    }
    assert(lhs =~= rhs);
}

/// Merging sorted writes gives no more writes than it was given, and the
/// merged writes lie apart in increasing order: each ends before the next
/// begins, so their offsets strictly increase.
pub proof fn law_merged_writes_apart(ws: Seq<(u64, Seq<u8>)>)
    requires
        offsets_sorted(ws),
        write_ends_fit(ws),
    ensures
        merged_writes(ws).len() <= ws.len(),
        ws.len() > 0 ==> merged_writes(ws).len() > 0,
        forall|i: int, j: int|
            0 <= i < j < merged_writes(ws).len() ==> (#[trigger] merged_writes(ws)[i]).0 + merged_writes(ws)[i].1.len()
                < (#[trigger] merged_writes(ws)[j]).0,
    decreases ws.len(),
{
    if ws.len() > 0 {
        lemma_merged_bounds(ws);
        let d = ws.drop_last();
        assert forall|i: int, j: int| 0 <= i <= j < d.len() implies d[i].0 <= d[j].0 by {
            assert(d[i] == ws[i] && d[j] == ws[j]);
        }
        assert forall|i: int| 0 <= i < d.len() implies (#[trigger] d[i]).0 + d[i].1.len() <= u64::MAX by {
            assert(d[i] == ws[i]);
        }
        law_merged_writes_apart(d);
        let acc = merged_writes(d);
        let m = merged_writes(ws);
        let w = ws.last();
        if acc.len() > 0 {
            lemma_merged_bounds(d);
            let c = acc.last();
            assert(d.last() == ws[ws.len() - 2]);
            assert(w == ws[ws.len() - 1]);
            assert(c.0 <= w.0);
            if c.0 <= w.0 && w.0 <= c.0 + c.1.len() {
                assert forall|i: int, j: int| 0 <= i < j < m.len() implies (#[trigger] m[i]).0 + m[i].1.len()
                    < (#[trigger] m[j]).0 by {
                    assert(m[i] == acc[i]);
                    if j < m.len() - 1 {
                        assert(m[j] == acc[j]);
                    } else {
                        assert(m[j].0 == acc[j].0);
                    }
                }
            } else {
                assert forall|i: int, j: int| 0 <= i < j < m.len() implies (#[trigger] m[i]).0 + m[i].1.len()
                    < (#[trigger] m[j]).0 by {
                    assert(m[i] == acc[i]);
                    if j < m.len() - 1 {
                        assert(m[j] == acc[j]);
                    } else {
                        assert(m[j] == w);
                        if i < acc.len() - 1 {
                            assert(acc[i].0 + acc[i].1.len() < acc[acc.len() - 1].0);
                        }
                    }
                }
            }
        }
    }
}

/// Merging writes leaves the disk as the writes themselves would, done in
/// order: bytes that no write covers are untouched, and where writes
/// overlap the later one wins.
pub proof fn law_merged_writes_same_image(image: Map<int, u8>, ws: Seq<(u64, Seq<u8>)>)
    requires
        offsets_sorted(ws),
        write_ends_fit(ws),
    ensures
        apply_writes(image, merged_writes(ws)) == apply_writes(image, ws),
    decreases ws.len(),
{
    if ws.len() > 0 {
        let d = ws.drop_last();
        assert forall|i: int, j: int| 0 <= i <= j < d.len() implies d[i].0 <= d[j].0 by {
            assert(d[i] == ws[i] && d[j] == ws[j]);
        }
        assert forall|i: int| 0 <= i < d.len() implies (#[trigger] d[i]).0 + d[i].1.len() <= u64::MAX by {
            assert(d[i] == ws[i]);
        }
        law_merged_writes_same_image(image, d);
        let acc = merged_writes(d);
        let w = ws.last();
        assert(w == ws[ws.len() - 1]);
        if acc.len() > 0 {
            let c = acc.last();
            lemma_merged_bounds(d);
            if c.0 <= w.0 && w.0 <= c.0 + c.1.len() {
                let up = acc.update(acc.len() - 1, (c.0, overlay(c.1, w.0 - c.0, w.1)));
                assert(up.drop_last() =~= acc.drop_last());
                assert(acc.drop_last().push(c) =~= acc);
                lemma_overlay_image(apply_writes(image, acc.drop_last()), c, w);
                assert(apply_writes(image, acc) == apply_write(apply_writes(image, acc.drop_last()), c));
            } else {
                assert(acc.push(w).drop_last() =~= acc);
            }
        } else {
            assert(merged_writes(ws) == seq![w]);
            assert(seq![w].drop_last() =~= Seq::<(u64, Seq<u8>)>::empty());
            assert(d.len() == 0) by {
                if d.len() > 0 {
                    lemma_merged_bounds(d);
                }
            }
            assert(apply_writes(image, d) == image);
        }
    }
}

proof fn lemma_total_prefix(ws: Seq<(u64, Seq<u8>)>, k: int)
    requires
        0 <= k <= ws.len(),
    ensures
        total_len(ws.take(k)) <= total_len(ws),
        k < ws.len() ==> total_len(ws.take(k)) + ws[k].1.len() <= total_len(ws),
    decreases ws.len(),
{
    if k < ws.len() {
        assert(ws.drop_last().take(k) =~= ws.take(k));
        if k < ws.len() - 1 {
            lemma_total_prefix(ws.drop_last(), k);
            assert(ws.drop_last()[k] == ws[k]);
        } else {
            assert(ws.take(k) =~= ws.drop_last());
        }
    } else {
        assert(ws.take(k) =~= ws);
    }
}


/// Merging of reads in order, as (start, end) runs: a read that starts no
/// more than 65536 bytes after the end of the current run extends it to the
/// later of the two ends; any other read starts a new run.
pub open spec fn merged_read_runs(rs: Seq<(u64, usize)>) -> Seq<(u64, u64)>
    decreases rs.len(),
{
    if rs.len() == 0 {
        Seq::empty()
    } else {
        let acc = merged_read_runs(rs.drop_last());
        let r = rs.last();
        let end = (r.0 + r.1) as u64;
        if acc.len() == 0 {
            seq![(r.0, end)]
        } else {
            let c = acc.last();
            if r.0 <= c.1 + 65536 {
                acc.update(acc.len() - 1, (c.0, if c.1 >= end { c.1 } else { end }))
            } else {
                acc.push((r.0, end))
            }
        }
    }
}

/// Runs as (offset, length) reads.
pub open spec fn runs_as_reads(runs: Seq<(u64, u64)>) -> Seq<(u64, usize)> {
    Seq::new(runs.len(), |i: int| (runs[i].0, (runs[i].1 - runs[i].0) as usize))
}

proof fn lemma_read_runs(rs: Seq<(u64, usize)>)
    requires
        forall|i: int| 0 <= i < rs.len() ==> (#[trigger] rs[i]).0 + rs[i].1 + 65536 <= u64::MAX,
    ensures
        forall|i: int| 0 <= i < merged_read_runs(rs).len() ==> (#[trigger] merged_read_runs(rs)[i]).0
            <= merged_read_runs(rs)[i].1,
        merged_read_runs(rs).len() > 0 ==> merged_read_runs(rs).last().1 + 65536 <= u64::MAX,
    decreases rs.len(),
{
    if rs.len() > 0 {
        let d = rs.drop_last();
        assert forall|i: int| 0 <= i < d.len() implies (#[trigger] d[i]).0 + d[i].1 + 65536 <= u64::MAX by {
            assert(d[i] == rs[i]);
        }
        lemma_read_runs(d);
        assert(rs.last() == rs[rs.len() - 1]);
    }
}

/// Merges reads that lie close together, as `merged_read_runs` says.
pub fn merge_adjacent_reads(reads: &[(u64, usize)]) -> (merged: Vec<(u64, usize)>)
    requires
        forall|i: int| 0 <= i < reads@.len() ==> (#[trigger] reads@[i]).0 + reads@[i].1 + 65536 <= u64::MAX,
    ensures
        merged@ == runs_as_reads(merged_read_runs(reads@)),
{
    let mut runs: Vec<(u64, u64)> = Vec::new();
    let mut i: usize = 0;
    while i < reads.len()
        invariant
            i <= reads@.len(),
            forall|k: int| 0 <= k < reads@.len() ==> (#[trigger] reads@[k]).0 + reads@[k].1 + 65536 <= u64::MAX,
            runs@ == merged_read_runs(reads@.take(i as int)),
        decreases reads@.len() - i,
    {
        let (offset, size) = reads[i];
        let read_end = offset + size as u64;
        proof {
            let t = reads@.take(i as int);
            assert forall|k: int| 0 <= k < t.len() implies (#[trigger] t[k]).0 + t[k].1 + 65536 <= u64::MAX by {
                assert(t[k] == reads@[k]);
            }
            lemma_read_runs(t);
            assert(reads@.take(i + 1).drop_last() =~= t);
            assert(reads@.take(i + 1).last() == reads@[i as int]);
        }
        if runs.len() == 0 {
            runs.push((offset, read_end));
        } else {
            let last = runs.len() - 1;
            let (start, end) = runs[last];
            if offset <= end + 65536 {
                let new_end = if end >= read_end {
                    end
                } else {
                    read_end
                };
                runs.set(last, (start, new_end));
            } else {
                runs.push((offset, read_end));
            }
        }
        i = i + 1;
    }
    assert(reads@.take(reads@.len() as int) =~= reads@);
    proof {
        lemma_read_runs(reads@);
    }
    let mut merged: Vec<(u64, usize)> = Vec::new();
    let mut j: usize = 0;
    while j < runs.len()
        invariant
            j <= runs@.len(),
            runs@ == merged_read_runs(reads@),
            forall|k: int| 0 <= k < runs@.len() ==> (#[trigger] runs@[k]).0 <= runs@[k].1,
            merged@ == runs_as_reads(runs@).take(j as int),
        decreases runs@.len() - j,
    {
        let (start, end) = runs[j];
        merged.push((start, #[verifier::truncate] ((end - start) as usize)));
        assert(merged@ =~= runs_as_reads(runs@).take(j + 1));
        j = j + 1;
    }
    assert(runs_as_reads(runs@).take(runs@.len() as int) =~= runs_as_reads(runs@));
    merged
}

/// The first merged read that holds all of a request.
pub open spec fn container_of(ms: Seq<(u64, Seq<u8>)>, offset: u64, size: usize) -> Option<int>
    decreases ms.len(),
{
    if ms.len() == 0 {
        None
    } else {
        match container_of(ms.drop_last(), offset, size) {
            Some(m) => Some(m),
            None => if offset >= ms.last().0 && offset + size <= ms.last().0 + ms.last().1.len() {
                Some(ms.len() - 1)
            } else {
                None
            },
        }
    }
}

/// The bytes of each request, cut from the first merged read that holds
/// it; a request that none holds gives nothing.
pub open spec fn extracted(reqs: Seq<(u64, usize)>, ms: Seq<(u64, Seq<u8>)>) -> Seq<Seq<u8>>
    decreases reqs.len(),
{
    if reqs.len() == 0 {
        Seq::empty()
    } else {
        let rest = extracted(reqs.drop_last(), ms);
        let r = reqs.last();
        match container_of(ms, r.0, r.1) {
            Some(m) => rest.push(ms[m].1.subrange(r.0 - ms[m].0, r.0 - ms[m].0 + r.1)),
            None => rest,
        }
    }
}

/// Reads as plain values.
pub open spec fn read_results_view(ms: Seq<(u64, Vec<u8>)>) -> Seq<(u64, Seq<u8>)> {
    Seq::new(ms.len(), |i: int| (ms[i].0, ms[i].1@))
}

proof fn lemma_container_bounds(ms: Seq<(u64, Seq<u8>)>, offset: u64, size: usize)
    ensures
        container_of(ms, offset, size) matches Some(m) ==> 0 <= m < ms.len() && offset >= ms[m].0 && offset
            + size <= ms[m].0 + ms[m].1.len(),
        container_of(ms, offset, size) matches Some(m) ==> forall|k: int|
            0 <= k < m ==> !(offset >= #[trigger] ms[k].0 && offset + size <= ms[k].0 + ms[k].1.len()),
        container_of(ms, offset, size) is None ==> forall|k: int|
            0 <= k < ms.len() ==> !(offset >= #[trigger] ms[k].0 && offset + size <= ms[k].0 + ms[k].1.len()),
    decreases ms.len(),
{
    if ms.len() > 0 {
        lemma_container_bounds(ms.drop_last(), offset, size);
        assert forall|k: int| 0 <= k < ms.len() - 1 implies #[trigger] ms[k] == ms.drop_last()[k] by {}
    }
}

/// The bytes of each request taken out of the merged reads, as
/// `extracted` says.
pub fn extract_reads(requests: &[(u64, usize)], merged: &[(u64, Vec<u8>)]) -> (out: Vec<Vec<u8>>)
    requires
        forall|i: int| 0 <= i < requests@.len() ==> (#[trigger] requests@[i]).0 + requests@[i].1 <= u64::MAX,
        forall|i: int| 0 <= i < merged@.len() ==> (#[trigger] merged@[i]).0 + merged@[i].1@.len() <= u64::MAX,
    ensures
        Seq::new(out@.len(), |i: int| out@[i]@) == extracted(requests@, read_results_view(merged@)),
{
    let ghost ms = read_results_view(merged@);
    let mut out: Vec<Vec<u8>> = Vec::new();
    let mut i: usize = 0;
    while i < requests.len()
        invariant
            i <= requests@.len(),
            ms == read_results_view(merged@),
            forall|k: int| 0 <= k < requests@.len() ==> (#[trigger] requests@[k]).0 + requests@[k].1 <= u64::MAX,
            forall|k: int| 0 <= k < merged@.len() ==> (#[trigger] merged@[k]).0 + merged@[k].1@.len() <= u64::MAX,
            Seq::new(out@.len(), |k: int| out@[k]@) == extracted(requests@.take(i as int), ms),
        decreases requests@.len() - i,
    {
        let (req_offset, req_size) = requests[i];
        proof {
            assert(requests@.take(i + 1).drop_last() =~= requests@.take(i as int));
            assert(requests@.take(i + 1).last() == requests@[i as int]);
            lemma_container_bounds(ms, req_offset, req_size);
        }
        let mut m: usize = 0;
        while m < merged.len() && !(req_offset >= merged[m].0 && req_offset + req_size as u64 <= merged[m].0
            + merged[m].1.len() as u64)
            invariant
                m <= merged@.len(),
                ms == read_results_view(merged@),
                forall|k: int| 0 <= k < merged@.len() ==> (#[trigger] merged@[k]).0 + merged@[k].1@.len() <= u64::MAX,
                req_offset + req_size <= u64::MAX,
                forall|k: int|
                    0 <= k < m ==> !(req_offset >= #[trigger] ms[k].0 && req_offset + req_size <= ms[k].0
                        + ms[k].1.len()),
            decreases merged@.len() - m,
        {
            assert(ms[m as int] == (merged@[m as int].0, merged@[m as int].1@));
            m = m + 1;
        }
        if m < merged.len() {
            let m_offset = merged[m].0;
            let m_data = &merged[m].1;
            assert(ms[m as int] == (m_offset, m_data@));
            let start = (req_offset - m_offset) as usize;
            let end = start + req_size;
            let piece = vstd::slice::slice_subrange(m_data.as_slice(), start, end);
            let ghost before = out@;
            out.push(vstd::slice::slice_to_vec(piece));
            proof {
                let mi = m as int;
                assert(req_offset >= ms[mi].0 && req_offset + req_size <= ms[mi].0 + ms[mi].1.len());
                match container_of(ms, req_offset, req_size) {
                    Some(mm) => {
                        if mm < mi {
                            assert(req_offset >= ms[mm].0 && req_offset + req_size <= ms[mm].0 + ms[mm].1.len());
                            assert(false);
                        }
                        if mm > mi {
                            assert(!(req_offset >= ms[mi].0 && req_offset + req_size <= ms[mi].0 + ms[mi].1.len()));
                        }
                    },
                    None => {
                        assert(!(req_offset >= ms[mi].0 && req_offset + req_size <= ms[mi].0 + ms[mi].1.len()));
                    },
                }
                assert(container_of(ms, req_offset, req_size) == Some(mi));
                assert(Seq::new(out@.len(), |k: int| out@[k]@) =~= Seq::new(before.len(), |k: int| before[k]@).push(
                    ms[m as int].1.subrange(req_offset - ms[m as int].0, req_offset - ms[m as int].0 + req_size),
                ));
            }
        } else {
            assert(container_of(ms, req_offset, req_size) is None);
        }
        i = i + 1;
    }
    assert(requests@.take(requests@.len() as int) =~= requests@);
    out
}

/// Reads in order of offset.
pub open spec fn reads_sorted(rs: Seq<(u64, usize)>) -> bool {
    forall|i: int, j: int| 0 <= i < j < rs.len() ==> (#[trigger] rs[i]).0 <= (#[trigger] rs[j]).0
}

/// The merged runs read from `disk`: each run's offset and bytes.
pub open spec fn runs_read_from(disk: Seq<u8>, runs: Seq<(u64, u64)>) -> Seq<(u64, Seq<u8>)> {
    Seq::new(runs.len(), |i: int| (runs[i].0, disk.subrange(runs[i].0 as int, runs[i].1 as int)))
}

/// The bytes of each read, taken from `disk` one read at a time.
pub open spec fn single_reads(disk: Seq<u8>, rs: Seq<(u64, usize)>) -> Seq<Seq<u8>> {
    Seq::new(rs.len(), |i: int| disk.subrange(rs[i].0 as int, rs[i].0 + rs[i].1))
}

/// Whether run `j` of `runs` holds all of read `r`.
pub open spec fn run_holds(runs: Seq<(u64, u64)>, j: int, r: (u64, usize)) -> bool {
    0 <= j < runs.len() && runs[j].0 <= r.0 && r.0 + r.1 <= runs[j].1
}

/// A run of `runs` that holds all of read `r`, when there is one.
pub open spec fn holder(runs: Seq<(u64, u64)>, r: (u64, usize)) -> int {
    choose|j: int| run_holds(runs, j, r)
}

/// Every read lies within one of the runs.
pub open spec fn runs_hold_all(runs: Seq<(u64, u64)>, rs: Seq<(u64, usize)>) -> bool {
    forall|i: int| 0 <= i < rs.len() ==> run_holds(runs, holder(runs, #[trigger] rs[i]), rs[i])
}

proof fn lemma_runs_hold_reads(rs: Seq<(u64, usize)>, limit: int)
    requires
        reads_sorted(rs),
        forall|i: int| 0 <= i < rs.len() ==> (#[trigger] rs[i]).0 + rs[i].1 + 65536 <= u64::MAX,
        forall|i: int| 0 <= i < rs.len() ==> (#[trigger] rs[i]).0 + rs[i].1 <= limit,
    ensures
        forall|j: int| 0 <= j < merged_read_runs(rs).len() ==> (#[trigger] merged_read_runs(rs)[j]).0
            <= merged_read_runs(rs)[j].1 <= limit,
        rs.len() > 0 ==> merged_read_runs(rs).len() > 0 && merged_read_runs(rs).last().0 <= rs.last().0,
        runs_hold_all(merged_read_runs(rs), rs),
    decreases rs.len(),
{
    if rs.len() > 0 {
        let d = rs.drop_last();
        assert forall|i: int, j: int| 0 <= i < j < d.len() implies (#[trigger] d[i]).0 <= (#[trigger] d[j]).0 by {
            assert(d[i] == rs[i] && d[j] == rs[j]);
        }
        assert forall|i: int| 0 <= i < d.len() implies (#[trigger] d[i]).0 + d[i].1 + 65536 <= u64::MAX && d[i].0
            + d[i].1 <= limit by {
            assert(d[i] == rs[i]);
        }
        lemma_runs_hold_reads(d, limit);
        let acc = merged_read_runs(d);
        let m = merged_read_runs(rs);
        let r = rs.last();
        let n = rs.len() - 1;
        assert(r == rs[n]);
        let end = (r.0 + r.1) as u64;
        if acc.len() == 0 {
            assert(d.len() == 0);
            assert(m =~= seq![(r.0, end)]);
            assert forall|i: int| 0 <= i < rs.len() implies run_holds(m, holder(m, #[trigger] rs[i]), rs[i]) by {
                assert(i == n);
                assert(run_holds(m, 0, rs[i]));
            }
        } else {
            let c = acc.last();
            if r.0 <= c.1 + 65536 {
                let ne = if c.1 >= end { c.1 } else { end };
                assert(m == acc.update(acc.len() - 1, (c.0, ne)));
                assert(c.0 <= d.last().0);
                assert(d.last() == rs[n - 1]);
                assert(rs[n - 1].0 <= rs[n].0);
                assert forall|i: int| 0 <= i < rs.len() implies run_holds(m, holder(m, #[trigger] rs[i]), rs[i]) by {
                    if i == n {
                        assert(run_holds(m, acc.len() - 1, rs[i]));
                    } else {
                        assert(rs[i] == d[i]);
                        let j = holder(acc, d[i]);
                        assert(run_holds(acc, j, d[i]));
                        assert(run_holds(m, j, rs[i]));
                    }
                }
            } else {
                assert(m == acc.push((r.0, end)));
                assert forall|i: int| 0 <= i < rs.len() implies run_holds(m, holder(m, #[trigger] rs[i]), rs[i]) by {
                    if i == n {
                        assert(run_holds(m, acc.len() as int, rs[i]));
                    } else {
                        assert(rs[i] == d[i]);
                        let j = holder(acc, d[i]);
                        assert(run_holds(acc, j, d[i]));
                        assert(run_holds(m, j, rs[i]));
                    }
                }
            }
        }
    }
}

proof fn lemma_extracted_from_disk(disk: Seq<u8>, reqs: Seq<(u64, usize)>, runs: Seq<(u64, u64)>)
    requires
        forall|j: int| 0 <= j < runs.len() ==> (#[trigger] runs[j]).0 <= runs[j].1 <= disk.len(),
        runs_hold_all(runs, reqs),
    ensures
        extracted(reqs, runs_read_from(disk, runs)) == single_reads(disk, reqs),
    decreases reqs.len(),
{
    let ms = runs_read_from(disk, runs);
    if reqs.len() > 0 {
        let d = reqs.drop_last();
        assert forall|i: int| 0 <= i < d.len() implies run_holds(runs, holder(runs, #[trigger] d[i]), d[i]) by {
            assert(d[i] == reqs[i]);
        }
        lemma_extracted_from_disk(disk, d, runs);
        let r = reqs.last();
        assert(r == reqs[reqs.len() - 1]);
        let j = holder(runs, r);
        assert(run_holds(runs, j, r));
        lemma_container_bounds(ms, r.0, r.1);
        assert(ms[j].1.len() == runs[j].1 - runs[j].0);
        match container_of(ms, r.0, r.1) {
            Some(m) => {
                let w = ms[m].1;
                assert(w == disk.subrange(runs[m].0 as int, runs[m].1 as int));
                assert(w.subrange(r.0 - ms[m].0, r.0 - ms[m].0 + r.1) =~= disk.subrange(r.0 as int, r.0 + r.1));
            },
            None => {
                assert(!(r.0 >= ms[j].0 && r.0 + r.1 <= ms[j].0 + ms[j].1.len()));
            },
        }
        assert(extracted(reqs, ms) =~= single_reads(disk, reqs));
    } else {
        assert(extracted(reqs, ms) =~= single_reads(disk, reqs));
    }
}

/// A batched read gives each request the bytes that reading it alone would
/// give: reads in order of offset are merged into runs, the runs are read
/// from the device, and each request's bytes are cut from the run that
/// holds it.
pub proof fn law_batched_reads_match_single_reads(disk: Seq<u8>, rs: Seq<(u64, usize)>)
    requires
        reads_sorted(rs),
        forall|i: int| 0 <= i < rs.len() ==> (#[trigger] rs[i]).0 + rs[i].1 + 65536 <= u64::MAX,
        forall|i: int| 0 <= i < rs.len() ==> (#[trigger] rs[i]).0 + rs[i].1 <= disk.len(),
    ensures
        extracted(rs, runs_read_from(disk, merged_read_runs(rs))) == single_reads(disk, rs),
{
    lemma_runs_hold_reads(rs, disk.len() as int);
    lemma_extracted_from_disk(disk, rs, merged_read_runs(rs));
}

/// The same holds for requests in any order: when the runs are merged from
/// the requests sorted by offset, cutting each request, in the order asked,
/// from the run that holds it gives the bytes that reading it alone would
/// give.
pub proof fn law_batched_reads_any_order(disk: Seq<u8>, reqs: Seq<(u64, usize)>, sorted: Seq<(u64, usize)>)
    requires
        reads_sorted(sorted),
        forall|i: int| 0 <= i < sorted.len() ==> (#[trigger] sorted[i]).0 + sorted[i].1 + 65536 <= u64::MAX,
        forall|i: int| 0 <= i < sorted.len() ==> (#[trigger] sorted[i]).0 + sorted[i].1 <= disk.len(),
        forall|i: int| 0 <= i < reqs.len() ==> sorted.contains(#[trigger] reqs[i]),
    ensures
        extracted(reqs, runs_read_from(disk, merged_read_runs(sorted))) == single_reads(disk, reqs),
{
    let runs = merged_read_runs(sorted);
    lemma_runs_hold_reads(sorted, disk.len() as int);
    assert forall|i: int| 0 <= i < reqs.len() implies run_holds(runs, holder(runs, #[trigger] reqs[i]), reqs[i]) by {
        let k = choose|k: int| 0 <= k < sorted.len() && sorted[k] == reqs[i];
        assert(run_holds(runs, holder(runs, sorted[k]), sorted[k]));
    }
    lemma_extracted_from_disk(disk, reqs, runs);
}

} // verus!
