//! Fetching slices from the origin: the retry policy, and the checks made on
//! each range response.

use vstd::prelude::*;
use std::time::Duration;
use vstd::arithmetic::power2::{pow2, lemma2_to64, lemma2_to64_rest, lemma_pow2_unfold, lemma_pow2_strictly_increases};
use crate::clock::{duration_from_millis, duration_nanos};
use crate::error::{SliceError, error_is_retryable};
use crate::headers::{HeaderList, lower, visible_text};
use crate::models::ByteRange;
use crate::request_analyzer::{split_on, split_chars};
use crate::text::{chars_to_string, dec_digits, push_decimal, parse_u64, parse_u64_spec, str_chars, string_push_str, trim_bounds, trim_spec, starts_with, chars_start_with};

verus! {

/// What one range request brought back.
#[derive(Debug, Clone)]
pub struct SubrequestResult {
    /// Position of the slice in the sequence.
    pub slice_index: usize,
    /// The body of the response.
    pub data: Vec<u8>,
    /// HTTP status code of the response.
    pub status: u16,
    /// Response headers.
    pub headers: HeaderList,
}

/// How often a failed range request is tried again, and how long to wait
/// before each new attempt.
#[derive(Debug, Clone)]
pub struct RetryPolicy {
    /// How many times a request is tried again at most.
    pub max_retries: usize,
    /// Milliseconds to wait before each retry, by attempt.
    pub backoff_ms: Vec<u64>,
}

/// The wait before retry `i` that `RetryPolicy::new` chooses: 100 ms, doubled
/// for each further retry.
pub open spec fn backoff_ms_at(i: nat) -> nat {
    100 * pow2(i)
}

/// The wait in milliseconds after attempt `attempt`: its own entry, else the
/// last entry, else one second.
pub open spec fn backoff_for(backoff_ms: Seq<u64>, attempt: int) -> u64 {
    if 0 <= attempt < backoff_ms.len() {
        backoff_ms[attempt]
    } else if backoff_ms.len() > 0 {
        backoff_ms.last()
    } else {
        1000
    }
}

/// What to do after a failed attempt.
#[derive(Debug)]
pub enum RetryStep {
    /// Wait `backoff`, then make attempt `next_attempt`.
    Retry { backoff: Duration, next_attempt: usize },
    /// Stop, and report this error.
    GiveUp(SliceError),
}

impl RetryPolicy {
    /// A policy of `max_retries` retries with exponential backoff: 100 ms,
    /// 200 ms, 400 ms, ...
    pub fn new(max_retries: usize) -> (p: RetryPolicy)
        requires
            max_retries <= 58,
        ensures
            p.max_retries == max_retries,
            p.backoff_ms@.len() == max_retries,
            forall|i: int| 0 <= i < max_retries ==> p.backoff_ms@[i] == backoff_ms_at(i as nat),
    {
        let mut backoff_ms: Vec<u64> = Vec::new();
        let mut cur: u64 = 100;
        let mut i: usize = 0;
        proof {
            lemma2_to64();
            lemma2_to64_rest();
        }
        while i < max_retries
            invariant
                i <= max_retries <= 58,
                backoff_ms@.len() == i,
                forall|j: int| 0 <= j < i ==> backoff_ms@[j] == backoff_ms_at(j as nat),
                i == 0 ==> cur == 100,
                i > 0 ==> cur == backoff_ms_at((i - 1) as nat),
                pow2(57) == 0x200000000000000,
            decreases max_retries - i,
        {
            if i > 0 {
                proof {
                    lemma_pow2_unfold(i as nat);
                    if i < 57 {
                        lemma_pow2_strictly_increases(i as nat, 57);
                    }
                }
                cur = cur * 2;
            } else {
                proof {
                    assert(pow2(0) == 1) by {
                        lemma2_to64();
                    }
                }
            }
            backoff_ms.push(cur);
            i = i + 1;
        }
        RetryPolicy { max_retries, backoff_ms }
    }

    /// Whether attempt number `attempt` (from zero) that failed with `error`
    /// is tried again: while retries are left, and only for an HTTP error.
    pub fn should_retry(&self, attempt: usize, error: &SliceError) -> (r: bool)
        ensures
            r == (attempt < self.max_retries && error_is_retryable(*error)),
    {
        attempt < self.max_retries && error.should_retry()
    }

    /// How long to wait after attempt `attempt` failed.
    pub fn backoff_duration(&self, attempt: usize) -> (d: Duration)
        ensures
            duration_nanos(d) == backoff_for(self.backoff_ms@, attempt as int) * 1_000_000,
    {
        let ms = if attempt < self.backoff_ms.len() {
            self.backoff_ms[attempt]
        } else if self.backoff_ms.len() > 0 {
            self.backoff_ms[self.backoff_ms.len() - 1]
        } else {
            1000
        };
        duration_from_millis(ms)
    }

    /// The step after attempt `attempt` for slice `slice_index` failed with
    /// `error`: wait and retry while the policy allows it, else give up with
    /// `SubrequestFailed`, counting the attempts made.
    pub fn after_failure(&self, attempt: usize, error: &SliceError, slice_index: usize) -> (s: RetryStep)
        requires
            attempt < usize::MAX,
        ensures
            (attempt < self.max_retries && error_is_retryable(*error)) ==> (s matches RetryStep::Retry {
                backoff,
                next_attempt,
            } && next_attempt == attempt + 1 && duration_nanos(backoff) == backoff_for(
                self.backoff_ms@,
                attempt as int,
            ) * 1_000_000),
            !(attempt < self.max_retries && error_is_retryable(*error)) ==> s == RetryStep::GiveUp(
                SliceError::SubrequestFailed { slice_index, attempts: (attempt + 1) as usize },
            ),
    {
        if self.should_retry(attempt, error) {
            RetryStep::Retry { backoff: self.backoff_duration(attempt), next_attempt: attempt + 1 }
        } else {
            RetryStep::GiveUp(SliceError::SubrequestFailed { slice_index, attempts: attempt + 1 })
        }
    }
}

/// `bytes ` as characters.
pub open spec fn bytes_space() -> Seq<char> {
    seq!['b', 'y', 't', 'e', 's', ' ']
}

/// The first and last byte that a `Content-Range` value names, read as the
/// response check reads it: after trimming, `bytes ` then `START-END/TOTAL`,
/// cut at `/` into exactly two pieces and the first at `-` into exactly two,
/// each number trimmed and read as `str::parse::<u64>` reads it. TOTAL is not
/// read.
pub open spec fn content_range_value(s: Seq<char>) -> Option<(u64, u64)> {
    let t = trim_spec(s);
    if starts_with(t, bytes_space()) {
        let parts = split_on(t.skip(6), '/');
        if parts.len() == 2 {
            let rp = split_on(parts[0], '-');
            if rp.len() == 2 {
                match (parse_u64_spec(trim_spec(rp[0])), parse_u64_spec(trim_spec(rp[1]))) {
                    (Some(a), Some(b)) => Some((a, b)),
                    _ => None,
                }
            } else {
                None
            }
        } else {
            None
        }
    } else {
        None
    }
}

fn parse_error(what: &str, value: &str) -> (e: SliceError)
    ensures
        e matches SliceError::ParseError(msg) && msg@ == what@ + value@,
{
    let mut msg = String::new();
    string_push_str(&mut msg, what);
    string_push_str(&mut msg, value);
    SliceError::ParseError(msg)
}

fn trimmed_number(s: &[char]) -> (r: Option<u64>)
    ensures
        r == parse_u64_spec(trim_spec(s@)),
{
    let (lo, hi) = trim_bounds(s);
    parse_u64(vstd::slice::slice_subrange(s, lo, hi))
}

/// Whether a `Content-Range` value names exactly `expected`; `ParseError`
/// when the value is not of the form `bytes START-END/TOTAL`.
pub fn validate_content_range(content_range: &str, expected: &ByteRange) -> (r: Result<bool, SliceError>)
    ensures
        r is Ok <==> content_range_value(content_range@) is Some,
        r matches Ok(b) ==> b == (content_range_value(content_range@)->Some_0.0 == expected.start
            && content_range_value(content_range@)->Some_0.1 == expected.end),
        r matches Err(e) ==> e is ParseError,
{
    let c = str_chars(content_range);
    let (lo, hi) = trim_bounds(c.as_slice());
    let t = vstd::slice::slice_subrange(c.as_slice(), lo, hi);
    assert(t@ == trim_spec(content_range@));
    let prefix = ['b', 'y', 't', 'e', 's', ' '];
    assert(prefix@ =~= bytes_space());
    if !chars_start_with(t, &prefix) {
        return Err(parse_error("Content-Range must start with 'bytes ', got: ", chars_to_string(t).as_str()));
    }
    let rest = vstd::slice::slice_subrange(t, 6, t.len());
    assert(rest@ =~= t@.skip(6));
    let parts = split_chars(rest, '/');
    if parts.len() != 2 {
        return Err(parse_error("Invalid Content-Range format, expected 'start-end/total', got: ", chars_to_string(rest).as_str()));
    }
    let range_parts = split_chars(parts[0].as_slice(), '-');
    if range_parts.len() != 2 {
        return Err(parse_error("Invalid range format in Content-Range: ", chars_to_string(parts[0].as_slice()).as_str()));
    }
    let start = match trimmed_number(range_parts[0].as_slice()) {
        Some(v) => v,
        None => {
            return Err(parse_error("Invalid start value in Content-Range: ", content_range));
        },
    };
    let end = match trimmed_number(range_parts[1].as_slice()) {
        Some(v) => v,
        None => {
            return Err(parse_error("Invalid end value in Content-Range: ", content_range));
        },
    };
    Ok(start == expected.start && end == expected.end)
}

/// How a range response is judged before its body is taken: status 206,
/// a `Content-Range` of visible ASCII that names exactly the slice's range.
/// `None` when it passes; else the kind of error: 0 for `HttpError`, 1 for
/// `ParseError`.
pub open spec fn slice_response_fault(status: u16, fields: Map<Seq<char>, Seq<u8>>, range: ByteRange) -> Option<int> {
    if status != 206 {
        Some(0)
    } else if !fields.dom().contains("content-range"@) {
        Some(0)
    } else {
        let v = fields["content-range"@];
        if !(forall|i: int| 0 <= i < v.len() ==> crate::headers::is_visible_ascii(#[trigger] v[i])) {
            Some(1)
        } else {
            match content_range_value(Seq::new(v.len(), |i: int| v[i] as char)) {
                None => Some(1),
                Some((a, b)) => if a == range.start && b == range.end {
                    None
                } else {
                    Some(0)
                },
            }
        }
    }
}

/// Checks a range response for slice `range` before its body is read:
/// anything but status 206 is an `HttpError`, as are a missing
/// `Content-Range` and one that names other bytes; a `Content-Range` that is
/// not visible ASCII or not of the form `bytes START-END/TOTAL` is a
/// `ParseError`.
pub fn check_slice_response(status: u16, headers: &HeaderList, range: &ByteRange) -> (r: Result<(), SliceError>)
    requires
        headers.wf(),
    ensures
        r is Ok <==> slice_response_fault(status, headers.byte_fields(), *range) is None,
        r matches Err(e) ==> (slice_response_fault(status, headers.byte_fields(), *range) == Some(0int)
            ==> e is HttpError),
        r matches Err(e) ==> (slice_response_fault(status, headers.byte_fields(), *range) == Some(1int)
            ==> e is ParseError),
        status != 206 ==> (r matches Err(SliceError::HttpError(m)) && m@ == "Expected status 206, got "@
            + dec_digits(status as nat)),
        ({
            let v = headers.byte_fields()["content-range"@];
            let text = Seq::new(v.len(), |i: int| v[i] as char);
            (status == 206 && headers.byte_fields().dom().contains("content-range"@) && (forall|i: int|
                0 <= i < v.len() ==> crate::headers::is_visible_ascii(#[trigger] v[i])) && content_range_value(text)
                is Some && !(content_range_value(text)->Some_0.0 == range.start && content_range_value(text)->Some_0.1
                == range.end)) ==> (r matches Err(SliceError::HttpError(m)) && m@ == "Content-Range mismatch: expected "@
                + dec_digits(range.start as nat) + "-"@ + dec_digits(range.end as nat) + ", got "@ + text)
        }),
{
    if status != 206 {
        let mut msg = String::new();
        string_push_str(&mut msg, "Expected status 206, got ");
        push_decimal(&mut msg, status as u64);
        assert(msg@ =~= "Expected status 206, got "@ + dec_digits(status as nat));
        return Err(SliceError::HttpError(msg));
    }
    proof {
        reveal_strlit("content-range");
        assert(lower("content-range"@) =~= "content-range"@);
    }
    match headers.get("content-range") {
        None => {
            let mut msg = String::new();
            string_push_str(&mut msg, "Missing Content-Range header in 206 response");
            Err(SliceError::HttpError(msg))
        },
        Some(value) => {
            match visible_text(value.as_slice()) {
                None => {
                    let mut msg = String::new();
                    string_push_str(&mut msg, "Invalid Content-Range header: not visible ASCII");
                    Err(SliceError::ParseError(msg))
                },
                Some(text) => {
                    match validate_content_range(text.as_str(), range) {
                        Err(e) => Err(e),
                        Ok(true) => Ok(()),
                        Ok(false) => {
                            let mut msg = String::new();
                            string_push_str(&mut msg, "Content-Range mismatch: expected ");
                            push_decimal(&mut msg, range.start);
                            string_push_str(&mut msg, "-");
                            push_decimal(&mut msg, range.end);
                            string_push_str(&mut msg, ", got ");
                            string_push_str(&mut msg, text.as_str());
                            assert(msg@ =~= "Content-Range mismatch: expected "@ + dec_digits(range.start as nat) + "-"@
                                + dec_digits(range.end as nat) + ", got "@ + text@);
                            Err(SliceError::HttpError(msg))
                        },
                    }
                },
            }
        },
    }
}

} // verus!
