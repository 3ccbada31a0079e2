//! Splits a file, or a byte range of it, into slices of a fixed size.

use vstd::prelude::*;
use crate::error::SliceError;
use crate::models::{ByteRange, SliceSpec};
use crate::text::{dec_digits, push_decimal, string_push_str};

verus! {

/// Calculator for splitting files into slices.
pub struct SliceCalculator {
    slice_size: usize,
}

/// Number of slices of size `s` that cover the bytes `start..=end`.
pub open spec fn slice_count(start: int, end: int, s: int) -> int {
    if end < start {
        0
    } else {
        (end - start) / s + 1
    }
}

/// First byte of slice `i` when slicing from `start` by `s`.
pub open spec fn slice_start(start: int, s: int, i: int) -> int {
    start + i * s
}

/// Last byte of slice `i` when slicing `start..=end` by `s`.
pub open spec fn slice_end(start: int, end: int, s: int, i: int) -> int {
    if slice_start(start, s, i) + s - 1 <= end {
        slice_start(start, s, i) + s - 1
    } else {
        end
    }
}

/// The slices that cover `start..=end`, each `s` bytes but the last.
pub open spec fn slices_cover(v: Seq<SliceSpec>, start: int, end: int, s: int) -> bool {
    &&& v.len() == slice_count(start, end, s)
    &&& forall|i: int|
        0 <= i < v.len() ==> {
            &&& (#[trigger] v[i]).index == i
            &&& v[i].range.start == slice_start(start, s, i)
            &&& v[i].range.end == slice_end(start, end, s, i)
        }
}

/// The byte range that a request for `client_range` of a file of
/// `file_size` bytes is cut down to: the whole file, or the client's range
/// with its end clamped to the last byte of the file.
pub open spec fn effective_range(file_size: u64, client_range: Option<ByteRange>) -> (int, int) {
    match client_range {
        Some(r) => (
            r.start as int,
            if r.end <= file_size - 1 {
                r.end as int
            } else {
                file_size - 1
            },
        ),
        None => (0, file_size - 1),
    }
}

impl SliceCalculator {
    /// The size of each slice.
    pub closed spec fn spec_slice_size(&self) -> nat {
        self.slice_size as nat
    }

    /// A calculator that cuts slices of `slice_size` bytes.
    pub fn new(slice_size: usize) -> (c: SliceCalculator)
        ensures
            c.spec_slice_size() == slice_size,
    {
        SliceCalculator { slice_size }
    }

    /// Number of slices needed to cover a file of `file_size` bytes.
    pub fn calculate_total_slices(&self, file_size: u64) -> (n: usize)
        requires
            self.spec_slice_size() > 0,
            file_size as int / self.spec_slice_size() as int + 1 <= usize::MAX,
        ensures
            n == slice_count(0, file_size - 1, self.spec_slice_size() as int),
    {
        if file_size == 0 {
            return 0;
        }
        let s = self.slice_size as u64;
        let q = file_size / s;
        let r = file_size % s;
        proof {
            vstd::arithmetic::div_mod::lemma_fundamental_div_mod(file_size as int, s as int);
            if r == 0 {
                assert(file_size - 1 == (q - 1) * s + (s - 1)) by (nonlinear_arith)
                    requires file_size == s * q + r, r == 0;
                vstd::arithmetic::div_mod::lemma_fundamental_div_mod_converse(
                    file_size - 1,
                    s as int,
                    q - 1,
                    s - 1,
                );
            } else {
                assert(file_size - 1 == q * s + (r - 1)) by (nonlinear_arith)
                    requires file_size == s * q + r;
                vstd::arithmetic::div_mod::lemma_fundamental_div_mod_converse(
                    file_size - 1,
                    s as int,
                    q as int,
                    r - 1,
                );
            }
        }
        if r == 0 {
            q as usize
        } else {
            (q + 1) as usize
        }
    }

    /// The slices needed for a whole file or for the client's byte range.
    ///
    /// The slices cover the requested bytes in order, without gaps or
    /// overlap; each holds `slice_size` bytes except possibly the last.
    /// A range that starts at or beyond the end of the file is refused.
    pub fn calculate_slices(&self, file_size: u64, client_range: Option<ByteRange>) -> (r: Result<
        Vec<SliceSpec>,
        SliceError,
    >)
        requires
            self.spec_slice_size() > 0,
        ensures
            file_size == 0 ==> r is Ok && r->Ok_0@.len() == 0,
            file_size > 0 && client_range is Some && client_range->Some_0.start >= file_size
                ==> (r matches Err(SliceError::InvalidRange(m)) && m@ == "Range start "@ + dec_digits(
                client_range->Some_0.start as nat,
            ) + " is beyond file size "@ + dec_digits(file_size as nat)),
            file_size > 0 && !(client_range is Some && client_range->Some_0.start >= file_size)
                ==> r is Ok && slices_cover(
                r->Ok_0@,
                effective_range(file_size, client_range).0,
                effective_range(file_size, client_range).1,
                self.spec_slice_size() as int,
            ),
    {
        if file_size == 0 {
            return Ok(Vec::new());
        }
        let (range_start, range_end) = match client_range {
            Some(range) => {
                if range.start >= file_size {
                    let mut msg = String::new();
                    string_push_str(&mut msg, "Range start ");
                    push_decimal(&mut msg, range.start);
                    string_push_str(&mut msg, " is beyond file size ");
                    push_decimal(&mut msg, file_size);
                    assert(msg@ =~= "Range start "@ + dec_digits(range.start as nat) + " is beyond file size "@
                        + dec_digits(file_size as nat));
                    return Err(SliceError::InvalidRange(msg));
                }
                let end = if range.end <= file_size - 1 {
                    range.end
                } else {
                    file_size - 1
                };
                (range.start, end)
            },
            None => (0, file_size - 1),
        };
        let ghost start = range_start as int;
        let ghost end = range_end as int;
        let s = self.slice_size as u64;
        let ghost si = s as int;
        let mut slices: Vec<SliceSpec> = Vec::new();
        let mut current_pos: u64 = range_start;
        let mut index: usize = 0;
        while current_pos <= range_end
            invariant
                start == range_start,
                end == range_end,
                end < u64::MAX,
                si == s,
                s > 0,
                start <= current_pos,
                current_pos <= end ==> current_pos == slice_start(start, si, index as int),
                current_pos <= end ==> index < slice_count(start, end, si),
                current_pos > end ==> index == slice_count(start, end, si),
                slices@.len() == index,
                forall|i: int|
                    0 <= i < index ==> {
                        &&& (#[trigger] slices@[i]).index == i
                        &&& slices@[i].range.start == slice_start(start, si, i)
                        &&& slices@[i].range.end == slice_end(start, end, si, i)
                    },
            decreases end + 1 - current_pos,
        {
            let slice_last = if range_end - current_pos >= s - 1 {
                current_pos + (s - 1)
            } else {
                range_end
            };
            let range = ByteRange::new(current_pos, slice_last)?;
            slices.push(SliceSpec::new(index, range));
            proof {
                let k = index as int;
                assert(slice_start(start, si, k + 1) == slice_start(start, si, k) + si) by (nonlinear_arith)
                    requires true;
                if slice_last as int + 1 > end {
                    let rem = end - current_pos;
                    assert(end - start == k * si + rem);
                    vstd::arithmetic::div_mod::lemma_fundamental_div_mod_converse(
                        end - start,
                        si,
                        k,
                        rem,
                    );
                } else {
                    let rem = end - (current_pos + si);
                    assert(end - start == (k + 1) * si + rem) by (nonlinear_arith)
                        requires
                            end - start == k * si + (si + rem),
                    ;
                    vstd::arithmetic::div_mod::lemma_fundamental_div_mod_converse(
                        end - start,
                        si,
                        (end - start) / si,
                        (end - start) % si,
                    );
                    assert((k + 1) * si <= end - start);
                    assert(k + 1 <= (end - start) / si) by (nonlinear_arith)
                        requires
                            (k + 1) * si <= end - start,
                            si > 0,
                            end - start == ((end - start) / si) * si + (end - start) % si,
                            0 <= (end - start) % si < si,
                    ;
                }
            }
            current_pos = slice_last + 1;
            index = slices.len();
        }
        Ok(slices)
    }
}

/// The number of slices of a file is the least number of slices of size `s`
/// whose bytes together reach the file's size: `ceil(file_size / s)`, 0 for
/// an empty file.
pub proof fn law_total_slices_is_least_cover(file_size: int, s: int)
    requires
        s > 0,
        file_size >= 0,
    ensures
        slice_count(0, file_size - 1, s) == (file_size + s - 1) / s,
        slice_count(0, file_size - 1, s) * s >= file_size,
        file_size > 0 ==> (slice_count(0, file_size - 1, s) - 1) * s < file_size,
{
    if file_size == 0 {
        vstd::arithmetic::div_mod::lemma_fundamental_div_mod_converse(s - 1, s, 0, s - 1);
    } else {
        let q = (file_size - 1) / s;
        let r = (file_size - 1) % s;
        vstd::arithmetic::div_mod::lemma_fundamental_div_mod(file_size - 1, s);
        assert(file_size + s - 1 == s * (q + 1) + r) by (nonlinear_arith)
            requires
                file_size - 1 == s * q + r,
        ;
        vstd::arithmetic::div_mod::lemma_fundamental_div_mod_converse(file_size + s - 1, s, q + 1, r);
        assert((q + 1) * s >= file_size && q * s < file_size) by (nonlinear_arith)
            requires
                file_size - 1 == s * q + r,
                0 <= r < s,
        ;
    }
}

/// Slices that cover `start..=end` tile it: the first starts at `start`, the
/// last ends at `end`, each one ends the byte before the next starts, and
/// none is empty, so every byte of the range lies in exactly one slice.
pub proof fn law_slices_tile_range(v: Seq<SliceSpec>, start: int, end: int, s: int)
    requires
        slices_cover(v, start, end, s),
        s > 0,
        start <= end,
    ensures
        v.len() > 0,
        v[0].range.start == start,
        v[v.len() - 1].range.end == end,
        forall|i: int| 0 <= i < v.len() - 1 ==> (#[trigger] v[i]).range.end + 1 == v[i + 1].range.start,
        forall|i: int| 0 <= i < v.len() ==> (#[trigger] v[i]).range.start <= v[i].range.end,
{
    let q = (end - start) / s;
    let r = (end - start) % s;
    vstd::arithmetic::div_mod::lemma_fundamental_div_mod(end - start, s);
    assert(q >= 0) by (nonlinear_arith)
        requires
            end - start >= 0,
            s > 0,
            q == (end - start) / s,
    ;
    assert(v.len() == q + 1);
    assert(v[0].range.start == start) by {
        assert(0 * s == 0) by (nonlinear_arith);
    }
    assert forall|i: int| 0 <= i <= q implies #[trigger] slice_start(start, s, i) + s - 1 >= end ==> i == q by {
        if i < q {
            assert(i * s + s <= q * s) by (nonlinear_arith)
                requires
                    i < q,
                    s > 0,
            ;
        }
    }
    assert forall|i: int| 0 <= i <= q implies #[trigger] slice_start(start, s, i) <= end by {
        assert(i * s <= q * s) by (nonlinear_arith)
            requires
                0 <= i <= q,
                s > 0,
        ;
    }
    assert(v[v.len() - 1].range.end == end) by {
        let l = v.len() - 1;
        assert(slice_start(start, s, q) <= end);
        assert(q * s + r == end - start) by (nonlinear_arith)
            requires
                end - start == s * q + r,
        ;
        assert(slice_start(start, s, q) + s - 1 >= end);
        assert(v[l].range.end == slice_end(start, end, s, q));
    }
    assert forall|i: int| 0 <= i < v.len() - 1 implies (#[trigger] v[i]).range.end + 1 == v[i + 1].range.start by {
        assert(slice_start(start, s, i) + s - 1 < end) by {
            assert(i * s + s <= q * s) by (nonlinear_arith)
                requires
                    i < q,
                    s > 0,
            ;
            assert(slice_start(start, s, q) <= end);
        }
        assert(slice_start(start, s, i + 1) == slice_start(start, s, i) + s) by (nonlinear_arith);
        assert(v[i + 1].range.start == slice_start(start, s, i + 1));
    }
    assert forall|i: int| 0 <= i < v.len() implies (#[trigger] v[i]).range.start <= v[i].range.end by {
        assert(slice_start(start, s, i) <= end);
    }
}

} // verus!
