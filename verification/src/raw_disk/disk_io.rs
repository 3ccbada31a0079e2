//! The arithmetic of direct (unbuffered) disk I/O: reads and writes must
//! start and end on multiples of the device's alignment, so a request is
//! widened to an aligned window, and a write fills the parts of the window
//! that it does not cover from what the device already holds.

use vstd::prelude::*;
use vstd::arithmetic::div_mod::{lemma_fundamental_div_mod, lemma_mod_multiples_basic};

verus! {

/// `offset` rounded down to a multiple of `alignment`.
pub open spec fn aligned_down(offset: int, alignment: int) -> int {
    offset / alignment * alignment
}

/// `size` rounded up to a multiple of `alignment`.
pub open spec fn aligned_up(size: int, alignment: int) -> int {
    (size + alignment - 1) / alignment * alignment
}

proof fn lemma_round_down(x: int, a: int)
    requires
        x >= 0,
        a > 0,
    ensures
        0 <= x - aligned_down(x, a) < a,
        aligned_down(x, a) % a == 0,
        aligned_down(x, a) >= 0,
{
    lemma_fundamental_div_mod(x, a);
    assert(x / a >= 0) by (nonlinear_arith)
        requires x >= 0, a > 0;
    assert(x / a * a >= 0) by (nonlinear_arith)
        requires x / a >= 0, a > 0;
    assert(x / a * a == a * (x / a)) by (nonlinear_arith);
    lemma_mod_multiples_basic(x / a, a);
}

proof fn lemma_round_up(x: int, a: int)
    requires
        x >= 0,
        a > 0,
    ensures
        x <= aligned_up(x, a) < x + a,
        aligned_up(x, a) % a == 0,
{
    lemma_round_down(x + a - 1, a);
}

/// `offset` rounded down to a multiple of `alignment`.
pub fn align_down(offset: u64, alignment: usize) -> (r: u64)
    requires
        alignment > 0,
    ensures
        r == aligned_down(offset as int, alignment as int),
        r <= offset,
        offset - r < alignment,
        (r as int) % (alignment as int) == 0,
{
    proof {
        lemma_round_down(offset as int, alignment as int);
    }
    let a = alignment as u64;
    offset / a * a
}

/// `size` rounded up to a multiple of `alignment`.
pub fn align_up(size: u64, alignment: usize) -> (r: u64)
    requires
        alignment > 0,
        size + alignment - 1 <= u64::MAX,
    ensures
        r == aligned_up(size as int, alignment as int),
        size <= r,
        r - size < alignment,
        (r as int) % (alignment as int) == 0,
{
    proof {
        lemma_round_up(size as int, alignment as int);
    }
    let a = alignment as u64;
    assert(a as int == alignment as int);
    (size + (a - 1)) / a * a
}

/// The aligned window around a request of `len` bytes at `offset`: where
/// it starts, how far into it the request starts, and its size.
#[derive(Debug, Clone, Copy, PartialEq, Eq)]
pub struct DirectWindow {
    /// Start of the window, a multiple of the alignment.
    pub aligned_offset: u64,
    /// Bytes between the start of the window and the request.
    pub adjustment: usize,
    /// Size of the window, a multiple of the alignment.
    pub aligned_size: usize,
}

/// The window of a request of `len` bytes at `offset`.
pub open spec fn window_of(offset: u64, len: usize, alignment: usize) -> DirectWindow {
    let start = aligned_down(offset as int, alignment as int);
    let adjustment = offset - start;
    DirectWindow {
        aligned_offset: start as u64,
        adjustment: adjustment as usize,
        aligned_size: aligned_up(adjustment + len, alignment as int) as usize,
    }
}

/// The aligned window for a request of `len` bytes at `offset`.
pub fn direct_window(offset: u64, len: usize, alignment: usize) -> (w: DirectWindow)
    requires
        alignment > 0,
        len + 2 * alignment <= usize::MAX,
    ensures
        w == window_of(offset, len, alignment),
        w.aligned_offset <= offset,
        w.adjustment == offset - w.aligned_offset,
        w.adjustment < alignment,
        w.adjustment + len <= w.aligned_size,
        w.aligned_size < w.adjustment + len + alignment,
        (w.aligned_offset as int) % (alignment as int) == 0,
        (w.aligned_size as int) % (alignment as int) == 0,
{
    let start = align_down(offset, alignment);
    let adjustment = (offset - start) as usize;
    let size = align_up((adjustment + len) as u64, alignment) as usize;
    DirectWindow { aligned_offset: start, adjustment, aligned_size: size }
}

/// How an unaligned write is carried out: the window written, and which
/// parts of it are first read back from the device so that the bytes
/// around the data keep their value.
#[derive(Debug, Clone, Copy, PartialEq, Eq)]
pub struct DirectWritePlan {
    /// The window written.
    pub window: DirectWindow,
    /// Bytes read into the start of the window first, when the data does
    /// not start on a boundary.
    pub head_read: Option<usize>,
    /// Offset within the window of its last block, read first when the data
    /// does not end on a boundary and the window has more than one block.
    pub tail_read: Option<usize>,
}

/// The plan of a write of `len` bytes at `offset`.
pub open spec fn write_plan_of(offset: u64, len: usize, alignment: usize) -> DirectWritePlan {
    let w = window_of(offset, len, alignment);
    DirectWritePlan {
        window: w,
        head_read: if w.adjustment > 0 {
            Some(if alignment <= w.aligned_size { alignment } else { w.aligned_size })
        } else {
            None
        },
        tail_read: if ((w.adjustment + len) as int) % (alignment as int) != 0 && w.aligned_size > alignment {
            Some((w.aligned_size - alignment) as usize)
        } else {
            None
        },
    }
}

/// The plan of a write of `len` bytes at `offset`.
pub fn plan_direct_write(offset: u64, len: usize, alignment: usize) -> (p: DirectWritePlan)
    requires
        alignment > 0,
        len + 2 * alignment <= usize::MAX,
    ensures
        p == write_plan_of(offset, len, alignment),
{
    let w = direct_window(offset, len, alignment);
    let head_read = if w.adjustment > 0 {
        Some(if alignment <= w.aligned_size { alignment } else { w.aligned_size })
    } else {
        None
    };
    let total = w.adjustment + len;
    let tail_read = if total % alignment != 0 && w.aligned_size > alignment {
        Some(w.aligned_size - alignment)
    } else {
        None
    };
    DirectWritePlan { window: w, head_read, tail_read }
}

/// Copies `data` into `buffer` from position `at` on; the rest of the
/// buffer is unchanged.
pub fn copy_into(buffer: &mut Vec<u8>, at: usize, data: &[u8])
    requires
        at + data@.len() <= old(buffer)@.len(),
    ensures
        final(buffer)@ == old(buffer)@.take(at as int) + data@ + old(buffer)@.skip(at + data@.len()),
{
    let n = buffer.len();
    let mut i: usize = 0;
    while i < data.len()
        invariant
            n == buffer@.len(),
            i <= data@.len(),
            at + data@.len() <= buffer@.len(),
            buffer@.len() == old(buffer)@.len(),
            forall|k: int| 0 <= k < at ==> buffer@[k] == old(buffer)@[k],
            forall|k: int| 0 <= k < i ==> buffer@[at + k] == data@[k],
            forall|k: int| at + i <= k < buffer@.len() ==> buffer@[k] == old(buffer)@[k],
        decreases data@.len() - i,
    {
        buffer.set(at + i, data[i]);
        i = i + 1;
    }
    assert(buffer@ =~= old(buffer)@.take(at as int) + data@ + old(buffer)@.skip(at + data@.len()));
}

} // verus!
