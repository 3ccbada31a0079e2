//! Core data: byte ranges, slice descriptions and file metadata.

use vstd::prelude::*;
use crate::error::SliceError;
use crate::text::{dec_digits, push_decimal, string_push_str, str_chars, parse_u64, parse_u64_spec, lemma_dec_digits_are_digits, lemma_parse_dec_digits, is_digit};

verus! {

/// An inclusive range of byte positions, `start..=end`.
#[derive(Debug, Clone, Copy, PartialEq, Eq)]
pub struct ByteRange {
    /// First byte of the range.
    pub start: u64,
    /// Last byte of the range (inclusive).
    pub end: u64,
}

/// One slice of a file: its position in the sequence and its byte range.
#[derive(Debug, Clone, Copy, PartialEq, Eq)]
pub struct SliceSpec {
    /// Position of the slice in the sequence, from zero.
    pub index: usize,
    /// The bytes the slice covers.
    pub range: ByteRange,
}

impl ByteRange {
    /// A range from `start` to `end` inclusive; refused when `start > end`.
    pub fn new(start: u64, end: u64) -> (r: Result<ByteRange, SliceError>)
        ensures
            start <= end <==> r is Ok,
            r is Ok ==> r->Ok_0 == (ByteRange { start, end }),
            r is Err ==> r->Err_0 is InvalidRange,
    {
        if start > end {
            let mut msg = String::new();
            string_push_str(&mut msg, "Invalid range: start greater than end");
            Err(SliceError::InvalidRange(msg))
        } else {
            Ok(ByteRange { start, end })
        }
    }

    /// Number of bytes in the range.
    pub open spec fn spec_size(self) -> int {
        self.end - self.start + 1
    }

    /// Number of bytes in the range.
    pub fn size(&self) -> (n: u64)
        requires
            self.start <= self.end,
            self.end - self.start + 1 <= u64::MAX,
        ensures
            n == self.spec_size(),
    {
        self.end - self.start + 1
    }

    /// Reads a `Range` header value of the form `bytes=START-END`.
    ///
    /// Text in another form gives `ParseError`; a START after END gives
    /// `InvalidRange`.
    pub fn from_header(s: &str) -> (r: Result<ByteRange, SliceError>)
        ensures
            r is Ok <==> range_header_value(s@) is Some,
            r is Ok ==> r->Ok_0 == range_header_value(s@)->Some_0,
            range_header_numbers(s@) is None ==> (r matches Err(e) && e is ParseError),
            range_header_numbers(s@) is Some && range_header_value(s@) is None ==> (r matches Err(e)
                && e is InvalidRange),
    {
        let c = str_chars(s);
        let prefix = ['b', 'y', 't', 'e', 's', '='];
        let ghost pseq = seq!['b', 'y', 't', 'e', 's', '='];
        assert(prefix@ =~= pseq);
        if c.len() < 6 || !crate::text::chars_start_with(c.as_slice(), &prefix) {
            let mut msg = String::new();
            string_push_str(&mut msg, "Range header must start with bytes=");
            return Err(SliceError::ParseError(msg));
        }
        let mut d: usize = 6;
        while d < c.len() && c[d] != '-'
            invariant
                6 <= d <= c@.len(),
                forall|k: int| 6 <= k < d ==> c@[k] != '-',
            decreases c@.len() - d,
        {
            d = d + 1;
        }
        let ghost rest = s@.skip(6);
        proof {
            lemma_first_dash(rest, (d - 6) as int);
        }
        if d >= c.len() {
            let mut msg = String::new();
            string_push_str(&mut msg, "Range header has no '-'");
            return Err(SliceError::ParseError(msg));
        }
        let start_chars = vstd::slice::slice_subrange(c.as_slice(), 6, d);
        let end_chars = vstd::slice::slice_subrange(c.as_slice(), d + 1, c.len());
        assert(start_chars@ =~= rest.take(d - 6));
        assert(end_chars@ =~= rest.skip(d - 6 + 1));
        match (parse_u64(start_chars), parse_u64(end_chars)) {
            (Some(a), Some(b)) => ByteRange::new(a, b),
            _ => {
                let mut msg = String::new();
                string_push_str(&mut msg, "Range header holds an invalid number");
                Err(SliceError::ParseError(msg))
            },
        }
    }

    /// The `Range` header value asking for this range: `bytes=START-END`.
    pub fn to_header(&self) -> (h: String)
        ensures
            h@ == range_header_text(self.start, self.end),
    {
        let mut h = String::new();
        string_push_str(&mut h, "bytes=");
        push_decimal(&mut h, self.start);
        string_push_str(&mut h, "-");
        push_decimal(&mut h, self.end);
        proof {
            reveal_strlit("bytes=");
            reveal_strlit("-");
        }
        assert(h@ =~= range_header_text(self.start, self.end));
        h
    }
}

/// Position of the first `-` in `s`, if any.
pub open spec fn first_dash(s: Seq<char>) -> Option<int>
    decreases s.len(),
{
    if s.len() == 0 {
        None
    } else {
        match first_dash(s.drop_last()) {
            Some(i) => Some(i),
            None => if s.last() == '-' {
                Some(s.len() - 1)
            } else {
                None
            },
        }
    }
}

/// The two numbers of a `Range` header value of the form
/// `bytes=START-END`, as `str::parse` reads them (cut at the first `-`),
/// whatever their order.
pub open spec fn range_header_numbers(s: Seq<char>) -> Option<(u64, u64)> {
    let prefix = seq!['b', 'y', 't', 'e', 's', '='];
    if s.len() >= 6 && s.take(6) == prefix {
        let rest = s.skip(6);
        match first_dash(rest) {
            Some(d) => match (parse_u64_spec(rest.take(d)), parse_u64_spec(rest.skip(d + 1))) {
                (Some(a), Some(b)) => Some((a, b)),
                _ => None,
            },
            None => None,
        }
    } else {
        None
    }
}

/// The range that a `Range` header value names: `bytes=START-END`, where
/// START and END are decimal numbers as `str::parse` reads them (cut at the
/// first `-`) and START is not after END.
pub open spec fn range_header_value(s: Seq<char>) -> Option<ByteRange> {
    match range_header_numbers(s) {
        Some((a, b)) => if a <= b {
            Some(ByteRange { start: a, end: b })
        } else {
            None
        },
        None => None,
    }
}

/// `bytes=START-END`.
pub open spec fn range_header_text(start: u64, end: u64) -> Seq<char> {
    seq!['b', 'y', 't', 'e', 's', '='] + dec_digits(start as nat) + seq!['-'] + dec_digits(
        end as nat,
    )
}

proof fn lemma_first_dash(s: Seq<char>, d: int)
    requires
        0 <= d <= s.len(),
        forall|k: int| 0 <= k < d ==> s[k] != '-',
        d < s.len() ==> s[d] == '-',
    ensures
        d < s.len() ==> first_dash(s) == Some(d),
        d == s.len() ==> first_dash(s) is None,
    decreases s.len(),
{
    if s.len() > 0 {
        if d < s.len() {
            if d < s.len() - 1 {
                lemma_first_dash(s.drop_last(), d);
            } else {
                lemma_first_dash(s.drop_last(), d);
            }
        } else {
            lemma_first_dash(s.drop_last(), d - 1);
        }
    }
}

/// A range written as a `Range` header value reads back as the same range.
pub proof fn law_range_header_roundtrip(r: ByteRange)
    requires
        r.start <= r.end,
    ensures
        range_header_value(range_header_text(r.start, r.end)) == Some(r),
{
    let a = dec_digits(r.start as nat);
    let b = dec_digits(r.end as nat);
    let s = range_header_text(r.start, r.end);
    let rest = s.skip(6);
    lemma_dec_digits_are_digits(r.start as nat);
    lemma_dec_digits_are_digits(r.end as nat);
    lemma_parse_dec_digits(r.start);
    lemma_parse_dec_digits(r.end);
    assert(s.take(6) =~= seq!['b', 'y', 't', 'e', 's', '=']);
    assert(rest =~= a + seq!['-'] + b);
    assert forall|k: int| 0 <= k < a.len() implies rest[k] != '-' by {
        assert(rest[k] == a[k]);
        assert(is_digit(a[k]));
    }
    assert(rest[a.len() as int] == '-');
    lemma_first_dash(rest, a.len() as int);
    assert(rest.take(a.len() as int) =~= a);
    assert(rest.skip(a.len() as int + 1) =~= b);
}

impl SliceSpec {
    /// The slice at position `index` covering `range`.
    pub fn new(index: usize, range: ByteRange) -> (s: SliceSpec)
        ensures
            s == (SliceSpec { index, range }),
    {
        SliceSpec { index, range }
    }
}

/// What the origin server reports about a file.
#[derive(Debug, Clone, PartialEq, Eq)]
pub struct FileMetadata {
    /// Size of the file in bytes.
    pub content_length: u64,
    /// Whether the origin answers range requests.
    pub supports_range: bool,
    /// The `Content-Type` the origin sent, if any.
    pub content_type: Option<String>,
    /// The `ETag` the origin sent, if any.
    pub etag: Option<String>,
    /// The `Last-Modified` the origin sent, if any.
    pub last_modified: Option<String>,
}

impl FileMetadata {
    /// Metadata with a size and range support, and no other headers.
    pub fn new(content_length: u64, supports_range: bool) -> (m: FileMetadata)
        ensures
            m.content_length == content_length,
            m.supports_range == supports_range,
            m.content_type is None,
            m.etag is None,
            m.last_modified is None,
    {
        FileMetadata { content_length, supports_range, content_type: None, etag: None, last_modified: None }
    }

    /// Metadata with all of its fields given.
    pub fn with_headers(
        content_length: u64,
        supports_range: bool,
        content_type: Option<String>,
        etag: Option<String>,
        last_modified: Option<String>,
    ) -> (m: FileMetadata)
        ensures
            m == (FileMetadata { content_length, supports_range, content_type, etag, last_modified }),
    {
        FileMetadata { content_length, supports_range, content_type, etag, last_modified }
    }
}

} // verus!
