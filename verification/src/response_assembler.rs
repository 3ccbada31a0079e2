//! Building the client's response headers, and putting fetched slices back
//! in order.

use vstd::prelude::*;
use std::collections::BTreeMap;
use vstd::utf8::encode_utf8;
use vstd::std_specs::btree::increasing_seq;
use vstd::std_specs::iter::IteratorSpec;
use vstd::std_specs::cmp::OrdSpec;
use crate::error::SliceError;
use crate::headers::{HeaderList, header_text_ok, header_value_valid, lower};
use crate::models::{ByteRange, FileMetadata};
use crate::subrequest_manager::{SubrequestResult, content_range_value, bytes_space};
use crate::request_analyzer::lemma_split_pair;
use crate::text::{is_digit, lemma_digits_not_white, lemma_parse_dec_digits, lemma_trim_noop, starts_with};
use crate::text::{dec_digits, lemma_dec_digits_are_digits, push_decimal, string_push_str, u64_to_string};

verus! {

broadcast use vstd::std_specs::btree::group_btree_axioms, vstd::laws_cmp::group_laws_cmp;

/// Streams slices to the client in order.
#[derive(Debug, Clone, Copy)]
pub struct ResponseAssembler;

/// `bytes START-END/TOTAL`, the `Content-Range` of a partial response.
pub open spec fn content_range_text(start: u64, end: u64, total: u64) -> Seq<char> {
    seq!['b', 'y', 't', 'e', 's', ' '] + dec_digits(start as nat) + seq!['-'] + dec_digits(end as nat)
        + seq!['/'] + dec_digits(total as nat)
}

/// Whether an optional header value may be sent.
pub open spec fn optional_value_ok(v: Option<String>) -> bool {
    match v {
        Some(s) => header_text_ok(s@),
        None => true,
    }
}

/// `m` with `name` set to the bytes of `v`, when there is a value.
pub open spec fn insert_optional(m: Map<Seq<char>, Seq<u8>>, name: Seq<char>, v: Option<String>) -> Map<
    Seq<char>,
    Seq<u8>,
> {
    match v {
        Some(s) => m.insert(name, encode_utf8(s@)),
        None => m,
    }
}

/// The headers sent to the client for `metadata` and an optional range:
/// `content-length` (of the range, or of the file), `content-range` for a
/// range, then `content-type`, `accept-ranges: bytes`, `etag` and
/// `last-modified`, those that the metadata has.
pub open spec fn response_headers_spec(metadata: FileMetadata, client_range: Option<ByteRange>) -> Map<
    Seq<char>,
    Seq<u8>,
> {
    let base = match client_range {
        Some(r) => Map::<Seq<char>, Seq<u8>>::empty().insert(
            "content-length"@,
            encode_utf8(dec_digits(r.spec_size() as nat)),
        ).insert("content-range"@, encode_utf8(content_range_text(r.start, r.end, metadata.content_length))),
        None => Map::<Seq<char>, Seq<u8>>::empty().insert(
            "content-length"@,
            encode_utf8(dec_digits(metadata.content_length as nat)),
        ),
    };
    let typed = insert_optional(base, "content-type"@, metadata.content_type);
    let ranged = typed.insert("accept-ranges"@, encode_utf8("bytes"@));
    let tagged = insert_optional(ranged, "etag"@, metadata.etag);
    insert_optional(tagged, "last-modified"@, metadata.last_modified)
}

/// The status of the response: 206 for a range, else 200.
pub open spec fn response_status(client_range: Option<ByteRange>) -> u16 {
    if client_range is Some {
        206
    } else {
        200
    }
}

/// Whether the range lies inside the file.
pub open spec fn range_in_file(metadata: FileMetadata, client_range: Option<ByteRange>) -> bool {
    match client_range {
        Some(r) => r.end < metadata.content_length,
        None => true,
    }
}

/// The values of `m`, in increasing order of their keys.
pub open spec fn values_in_key_order(m: Map<usize, Vec<u8>>, out: Seq<Vec<u8>>) -> bool {
    exists|keys: Seq<usize>|
        {
            &&& keys.len() == out.len()
            &&& keys.to_set() == m.dom()
            &&& forall|i: int, j: int| 0 <= i < j < keys.len() ==> keys[i] < keys[j]
            &&& forall|i: int| 0 <= i < keys.len() ==> (#[trigger] out[i])@ == m[keys[i]]@
        }
}

/// Whether `m` holds exactly the slices `0..count`.
pub open spec fn slices_complete(m: Map<usize, Vec<u8>>, count: usize) -> bool {
    m.dom() == Set::new(|i: usize| i < count)
}

proof fn lemma_index_set_len(n: usize)
    ensures
        Set::new(|i: usize| i < n).finite(),
        Set::new(|i: usize| i < n).len() == n,
    decreases n,
{
    if n > 0 {
        lemma_index_set_len((n - 1) as usize);
        assert(Set::new(|i: usize| i < (n - 1) as usize).insert((n - 1) as usize) =~= Set::new(|i: usize| i < n));
    } else {
        assert(Set::new(|i: usize| i < n) =~= Set::<usize>::empty());
    }
}

proof fn lemma_increasing_keys(keys: Seq<usize>)
    requires
        increasing_seq(keys),
    ensures
        forall|i: int, j: int| 0 <= i < j < keys.len() ==> keys[i] < keys[j],
{
    assert(vstd::laws_cmp::obeys_cmp::<usize>());
    assert forall|i: int, j: int| 0 <= i < j < keys.len() implies keys[i] < keys[j] by {
        assert(keys[i].cmp_spec(&keys[j]) is Less);
    }
}

proof fn lemma_decimal_text_ok(n: nat)
    ensures
        header_text_ok(dec_digits(n)),
{
    lemma_dec_digits_are_digits(n);
}

fn header_value_or_error(s: &str) -> (r: Result<(), SliceError>)
    ensures
        r is Ok <==> header_text_ok(s@),
        r matches Err(e) ==> (e matches SliceError::AssemblyError(m) && m@
            == "Invalid header value: failed to parse header value"@),
{
    if header_value_valid(s) {
        Ok(())
    } else {
        let mut msg = String::new();
        string_push_str(&mut msg, "Invalid header value: failed to parse header value");
        Err(SliceError::AssemblyError(msg))
    }
}

fn insert_optional_header(headers: &mut HeaderList, name: &str, value: &Option<String>) -> (r: Result<(), SliceError>)
    requires
        old(headers).wf(),
        lower(name@) == name@,
    ensures
        final(headers).wf(),
        r is Ok <==> optional_value_ok(*value),
        r matches Err(e) ==> e is AssemblyError,
        r is Ok ==> final(headers).byte_fields() == insert_optional(old(headers).byte_fields(), name@, *value),
{
    match value {
        Some(s) => {
            header_value_or_error(s.as_str())?;
            headers.insert_str(name, s.as_str());
            Ok(())
        },
        None => Ok(()),
    }
}

/// The `Content-Range` that the assembler writes for a range is read back
/// by the check on slice responses as that same range.
pub proof fn law_content_range_roundtrip(start: u64, end: u64, total: u64)
    ensures
        content_range_value(content_range_text(start, end, total)) == Some((start, end)),
{
    let a = dec_digits(start as nat);
    let b = dec_digits(end as nat);
    let c = dec_digits(total as nat);
    let t = content_range_text(start, end, total);
    lemma_dec_digits_are_digits(start as nat);
    lemma_dec_digits_are_digits(end as nat);
    lemma_dec_digits_are_digits(total as nat);
    lemma_parse_dec_digits(start);
    lemma_parse_dec_digits(end);
    lemma_digits_not_white(a);
    lemma_digits_not_white(b);
    lemma_digits_not_white(c);
    assert(c.len() > 0) by {
        if total >= 10 {
        } else {
        }
    }
    assert(t.last() == c.last());
    assert(c.last() == c[c.len() - 1]);
    lemma_trim_noop(t);
    assert(t.take(6) =~= bytes_space());
    assert(starts_with(t, bytes_space()));
    let range_part = a + seq!['-'] + b;
    assert(t.skip(6) =~= range_part + seq!['/'] + c);
    assert(!range_part.contains('/')) by {
        if range_part.contains('/') {
            let i = choose|i: int| 0 <= i < range_part.len() && range_part[i] == '/';
            if i < a.len() {
                assert(is_digit(a[i]));
            } else if i > a.len() {
                assert(range_part[i] == b[i - a.len() - 1]);
                assert(is_digit(b[i - a.len() - 1]));
            }
        }
    }
    assert(!c.contains('/')) by {
        if c.contains('/') {
            let i = choose|i: int| 0 <= i < c.len() && c[i] == '/';
            assert(is_digit(c[i]));
        }
    }
    lemma_split_pair(range_part, '/', c);
    assert(!a.contains('-')) by {
        if a.contains('-') {
            let i = choose|i: int| 0 <= i < a.len() && a[i] == '-';
            assert(is_digit(a[i]));
        }
    }
    assert(!b.contains('-')) by {
        if b.contains('-') {
            let i = choose|i: int| 0 <= i < b.len() && b[i] == '-';
            assert(is_digit(b[i]));
        }
    }
    lemma_split_pair(a, '-', b);
    assert(a.len() > 0 && b.len() > 0) by {
        if start >= 10 {
        }
        if end >= 10 {
        }
    }
    assert(a.last() == a[a.len() - 1]);
    assert(b.last() == b[b.len() - 1]);
    lemma_trim_noop(a);
    lemma_trim_noop(b);
}

impl ResponseAssembler {
    /// A new assembler.
    pub fn new() -> (a: ResponseAssembler) {
        ResponseAssembler
    }

    /// A new assembler; the file size is not needed and not kept.
    pub fn with_size(_total_size: u64) -> (a: ResponseAssembler) {
        ResponseAssembler
    }

    /// The status and headers of the response to the client.
    ///
    /// A range that ends at or past the end of the file gives
    /// `InvalidRange`; a content type, entity tag or modification date that
    /// cannot stand in a header gives `AssemblyError`.
    pub fn build_response_header(&self, metadata: &FileMetadata, client_range: Option<ByteRange>) -> (r: Result<
        (u16, HeaderList),
        SliceError,
    >)
        requires
            client_range matches Some(rg) ==> rg.start <= rg.end,
        ensures
            !range_in_file(*metadata, client_range) ==> (r matches Err(SliceError::InvalidRange(m)) && m@
                == "Range end "@ + dec_digits(client_range->Some_0.end as nat) + " exceeds file size "@ + dec_digits(
                metadata.content_length as nat,
            )),
            r is Ok <==> range_in_file(*metadata, client_range) && optional_value_ok(metadata.content_type)
                && optional_value_ok(metadata.etag) && optional_value_ok(metadata.last_modified),
            range_in_file(*metadata, client_range) ==> (r matches Err(e) ==> e is AssemblyError),
            r matches Ok((status, headers)) ==> status == response_status(client_range) && headers.wf()
                && headers.byte_fields() == response_headers_spec(*metadata, client_range),
            r matches Ok((_, headers)) ==> {
                let h = headers.byte_fields();
                &&& (metadata.content_type matches Some(v) ==> h.contains_key("content-type"@)
                    && h["content-type"@] == encode_utf8(v@))
                &&& (metadata.etag matches Some(v) ==> h.contains_key("etag"@) && h["etag"@] == encode_utf8(v@))
                &&& (metadata.last_modified matches Some(v) ==> h.contains_key("last-modified"@)
                    && h["last-modified"@] == encode_utf8(v@))
                &&& h.contains_key("accept-ranges"@) && h["accept-ranges"@] == encode_utf8("bytes"@)
            },
    {
        proof {
            reveal_strlit("content-length");
            reveal_strlit("content-range");
            reveal_strlit("content-type");
            reveal_strlit("accept-ranges");
            reveal_strlit("etag");
            reveal_strlit("last-modified");
            reveal_strlit("bytes");
            reveal_strlit("bytes ");
            reveal_strlit("-");
            reveal_strlit("/");
            assert(lower("content-length"@) =~= "content-length"@);
            assert(lower("content-range"@) =~= "content-range"@);
            assert(lower("content-type"@) =~= "content-type"@);
            assert(lower("accept-ranges"@) =~= "accept-ranges"@);
            assert(lower("etag"@) =~= "etag"@);
            assert(lower("last-modified"@) =~= "last-modified"@);
        }
        let mut headers = HeaderList::new();
        let status: u16 = if client_range.is_some() {
            206
        } else {
            200
        };
        match client_range {
            Some(range) => {
                if range.end >= metadata.content_length {
                    let mut msg = String::new();
                    string_push_str(&mut msg, "Range end ");
                    push_decimal(&mut msg, range.end);
                    string_push_str(&mut msg, " exceeds file size ");
                    push_decimal(&mut msg, metadata.content_length);
                    assert(msg@ =~= "Range end "@ + dec_digits(range.end as nat) + " exceeds file size "@ + dec_digits(
                        metadata.content_length as nat,
                    ));
                    return Err(SliceError::InvalidRange(msg));
                }
                let length = u64_to_string(range.size());
                proof {
                    lemma_decimal_text_ok(range.spec_size() as nat);
                }
                header_value_or_error(length.as_str())?;
                headers.insert_str("content-length", length.as_str());
                let mut content_range = String::new();
                string_push_str(&mut content_range, "bytes ");
                push_decimal(&mut content_range, range.start);
                string_push_str(&mut content_range, "-");
                push_decimal(&mut content_range, range.end);
                string_push_str(&mut content_range, "/");
                push_decimal(&mut content_range, metadata.content_length);
                assert(content_range@ =~= content_range_text(range.start, range.end, metadata.content_length));
                proof {
                    lemma_decimal_text_ok(range.start as nat);
                    lemma_decimal_text_ok(range.end as nat);
                    lemma_decimal_text_ok(metadata.content_length as nat);
                    let t = content_range@;
                    let a = dec_digits(range.start as nat);
                    let b = dec_digits(range.end as nat);
                    let c = dec_digits(metadata.content_length as nat);
                    assert forall|i: int| 0 <= i < t.len() implies crate::headers::header_char_ok(#[trigger] t[i]) by {
                        if i >= 6 && i < 6 + a.len() {
                            assert(t[i] == a[i - 6]);
                        } else if i > 6 + a.len() && i < 7 + a.len() + b.len() {
                            assert(t[i] == b[i - 7 - a.len()]);
                        } else if i > 7 + a.len() + b.len() {
                            assert(t[i] == c[i - 8 - a.len() - b.len()]);
                        }
                    }
                }
                header_value_or_error(content_range.as_str())?;
                headers.insert_str("content-range", content_range.as_str());
            },
            None => {
                let length = u64_to_string(metadata.content_length);
                proof {
                    lemma_decimal_text_ok(metadata.content_length as nat);
                }
                header_value_or_error(length.as_str())?;
                headers.insert_str("content-length", length.as_str());
            },
        }
        assert(headers.byte_fields() == match client_range {
            Some(r) => Map::<Seq<char>, Seq<u8>>::empty().insert(
                "content-length"@,
                encode_utf8(dec_digits(r.spec_size() as nat)),
            ).insert("content-range"@, encode_utf8(content_range_text(r.start, r.end, metadata.content_length))),
            None => Map::<Seq<char>, Seq<u8>>::empty().insert(
                "content-length"@,
                encode_utf8(dec_digits(metadata.content_length as nat)),
            ),
        });
        insert_optional_header(&mut headers, "content-type", &metadata.content_type)?;
        headers.insert_str("accept-ranges", "bytes");
        insert_optional_header(&mut headers, "etag", &metadata.etag)?;
        insert_optional_header(&mut headers, "last-modified", &metadata.last_modified)?;
        proof {
            law_response_headers_forward_metadata(*metadata, client_range);
        }
        Ok((status, headers))
    }

    /// The slices keyed by their index, so that they come out in order; a
    /// later result for the same index replaces an earlier one.
    pub fn assemble_slices(&self, slice_results: Vec<SubrequestResult>) -> (m: BTreeMap<usize, Vec<u8>>)
        ensures
            forall|i: usize| #[trigger] m@.contains_key(i) <==> exists|j: int|
                0 <= j < slice_results@.len() && slice_results@[j].slice_index == i,
            forall|j: int|
                0 <= j < slice_results@.len() && (forall|k: int|
                    j < k < slice_results@.len() ==> slice_results@[k].slice_index
                        != slice_results@[j].slice_index) ==> #[trigger] m@[slice_results@[j].slice_index]
                    == slice_results@[j].data,
    {
        let mut slices: BTreeMap<usize, Vec<u8>> = BTreeMap::new();
        let ghost all = slice_results@;
        for r in it: slice_results.into_iter()
            invariant
                it.seq() == all,
                forall|i: usize| #[trigger] slices@.contains_key(i) <==> exists|j: int|
                    0 <= j < it.index() && all[j].slice_index == i,
                forall|j: int|
                    0 <= j < it.index() && (forall|k: int| j < k < it.index() ==> all[k].slice_index
                        != all[j].slice_index) ==> #[trigger] slices@[all[j].slice_index] == all[j].data,
        {
            let ghost n = it.index();
            assert(r == all[n]);
            let SubrequestResult { slice_index, data, status: _, headers: _ } = r;
            slices.insert(slice_index, data);
            proof {
                assert forall|i: usize| #[trigger] slices@.contains_key(i) implies exists|j: int|
                    0 <= j < n + 1 && all[j].slice_index == i by {
                    if i != slice_index {
                        let j = choose|j: int| 0 <= j < n && all[j].slice_index == i;
                        assert(0 <= j < n + 1 && all[j].slice_index == i);
                    } else {
                        assert(all[n].slice_index == i);
                    }
                }
            }
        }
        slices
    }

    /// The slices' data in increasing order of their index.
    pub fn stream_slices(&self, assembled_slices: BTreeMap<usize, Vec<u8>>) -> (out: Vec<Vec<u8>>)
        ensures
            values_in_key_order(assembled_slices@, out@),
    {
        let values = assembled_slices.values();
        let ghost keys = choose|keys: Seq<usize>|
            {
                &&& increasing_seq(keys)
                &&& keys.to_set() == assembled_slices@.dom()
                &&& keys.no_duplicates()
                &&& values.remaining() == keys.map(|i: int, k: usize| &assembled_slices@[k])
            };
        let mut out: Vec<Vec<u8>> = Vec::new();
        for v in it: values
            invariant
                it.seq() == keys.map(|i: int, k: usize| &assembled_slices@[k]),
                out@.len() == it.index(),
                forall|i: int| 0 <= i < it.index() ==> (#[trigger] out@[i])@ == assembled_slices@[keys[i]]@,
        {
            let copy = v.clone();
            assert(copy@ =~= v@);
            out.push(copy);
        }
        proof {
            assert(keys.len() == out@.len());
            lemma_increasing_keys(keys);
        }
        out
    }

    /// Checks that exactly the slices `0..expected_count` are present;
    /// `AssemblyError` otherwise.
    pub fn validate_completeness(&self, assembled_slices: &BTreeMap<usize, Vec<u8>>, expected_count: usize) -> (r:
        Result<(), SliceError>)
        ensures
            r is Ok <==> slices_complete(assembled_slices@, expected_count),
            r matches Err(e) ==> e is AssemblyError,
            assembled_slices@.len() != expected_count ==> (r matches Err(SliceError::AssemblyError(m)) && m@
                == "Missing slices: expected "@ + dec_digits(expected_count as nat) + ", got "@ + dec_digits(
                assembled_slices@.len(),
            )),
            assembled_slices@.len() == expected_count && r is Err ==> (r matches Err(SliceError::AssemblyError(m))
                && exists|i: usize|
                i < expected_count && !assembled_slices@.contains_key(i) && (forall|j: usize|
                    j < i ==> assembled_slices@.contains_key(j)) && m@ == "Missing slice at index "@ + dec_digits(
                    i as nat,
                )),
    {
        if assembled_slices.len() != expected_count {
            proof {
                if slices_complete(assembled_slices@, expected_count) {
                    lemma_index_set_len(expected_count);
                }
            }
            let mut msg = String::new();
            string_push_str(&mut msg, "Missing slices: expected ");
            push_decimal(&mut msg, expected_count as u64);
            string_push_str(&mut msg, ", got ");
            push_decimal(&mut msg, assembled_slices.len() as u64);
            assert(msg@ =~= "Missing slices: expected "@ + dec_digits(expected_count as nat) + ", got "@ + dec_digits(
                assembled_slices@.len(),
            ));
            return Err(SliceError::AssemblyError(msg));
        }
        let mut i: usize = 0;
        while i < expected_count
            invariant
                i <= expected_count,
                assembled_slices@.len() == expected_count,
                forall|k: usize| k < i ==> #[trigger] assembled_slices@.contains_key(k),
            decreases expected_count - i,
        {
            if !assembled_slices.contains_key(&i) {
                let mut msg = String::new();
                string_push_str(&mut msg, "Missing slice at index ");
                push_decimal(&mut msg, i as u64);
                assert(msg@ =~= "Missing slice at index "@ + dec_digits(i as nat));
                return Err(SliceError::AssemblyError(msg));
            }
            i = i + 1;
        }
        proof {
            let want = Set::new(|k: usize| k < expected_count);
            assert(want.subset_of(assembled_slices@.dom()));
            lemma_index_set_len(expected_count);
            vstd::set_lib::lemma_subset_equality(want, assembled_slices@.dom());
        }
        Ok(())
    }
}

/// Whether `out` holds the data of `rs` ordered by slice index: the result
/// at position `i` is `rs[order[i]]`, and the indices increase along `out`.
pub open spec fn data_in_index_order(rs: Seq<SubrequestResult>, out: Seq<Vec<u8>>) -> bool {
    exists|order: Seq<int>|
        {
            &&& order.len() == out.len()
            &&& out.len() == rs.len()
            &&& forall|i: int| 0 <= i < order.len() ==> 0 <= #[trigger] order[i] < rs.len()
            &&& forall|i: int, j: int|
                0 <= i < j < order.len() ==> rs[#[trigger] order[i]].slice_index < rs[#[trigger] order[j]].slice_index
            &&& forall|i: int| 0 <= i < order.len() ==> (#[trigger] out[i])@ == rs[order[i]].data@
        }
}

/// Assembling results with distinct slice indices and then streaming them
/// gives each result's data once, in increasing order of slice index,
/// whatever order the results came in.
pub proof fn law_assembled_stream_in_index_order(rs: Seq<SubrequestResult>, m: Map<usize, Vec<u8>>, out: Seq<Vec<u8>>)
    requires
        forall|i: int, j: int| 0 <= i < j < rs.len() ==> (#[trigger] rs[i]).slice_index != (#[trigger] rs[j]).slice_index,
        forall|i: usize| #[trigger] m.contains_key(i) <==> exists|j: int| 0 <= j < rs.len() && rs[j].slice_index == i,
        forall|j: int|
            0 <= j < rs.len() && (forall|k: int| j < k < rs.len() ==> rs[k].slice_index != rs[j].slice_index)
                ==> #[trigger] m[rs[j].slice_index] == rs[j].data,
        values_in_key_order(m, out),
    ensures
        data_in_index_order(rs, out),
{
    let keys = choose|keys: Seq<usize>|
        {
            &&& keys.len() == out.len()
            &&& keys.to_set() == m.dom()
            &&& forall|i: int, j: int| 0 <= i < j < keys.len() ==> keys[i] < keys[j]
            &&& forall|i: int| 0 <= i < keys.len() ==> (#[trigger] out[i])@ == m[keys[i]]@
        };
    let idx = rs.map_values(|r: SubrequestResult| r.slice_index);
    assert(keys.no_duplicates()) by {
        assert forall|i: int, j: int| 0 <= i < keys.len() && 0 <= j < keys.len() && i != j implies keys[i] != keys[j] by {
            if i < j {
                assert(keys[i] < keys[j]);
            } else {
                assert(keys[j] < keys[i]);
            }
        }
    }
    assert(idx.no_duplicates()) by {
        assert forall|i: int, j: int| 0 <= i < idx.len() && 0 <= j < idx.len() && i != j implies idx[i] != idx[j] by {
            if i < j {
                assert(rs[i].slice_index != rs[j].slice_index);
            } else {
                assert(rs[j].slice_index != rs[i].slice_index);
            }
        }
    }
    keys.unique_seq_to_set();
    idx.unique_seq_to_set();
    assert(idx.to_set() =~= m.dom()) by {
        assert forall|x: usize| idx.to_set().contains(x) <==> m.dom().contains(x) by {
            if idx.to_set().contains(x) {
                let j = choose|j: int| 0 <= j < idx.len() && idx[j] == x;
                assert(rs[j].slice_index == x);
            }
            if m.dom().contains(x) {
                assert(m.contains_key(x));
                let j = choose|j: int| 0 <= j < rs.len() && rs[j].slice_index == x;
                assert(idx[j] == x);
            }
        }
    }
    let order = Seq::new(keys.len(), |i: int| choose|j: int| 0 <= j < rs.len() && rs[j].slice_index == keys[i]);
    assert forall|i: int| 0 <= i < keys.len() implies 0 <= #[trigger] order[i] < rs.len() && rs[order[i]].slice_index
        == keys[i] by {
        assert(keys.to_set().contains(keys[i]));
        assert(m.contains_key(keys[i]));
    }
    assert forall|i: int| 0 <= i < order.len() implies (#[trigger] out[i])@ == rs[order[i]].data@ by {
        let j = order[i];
        assert(rs[j].slice_index == keys[i]);
        assert forall|k: int| j < k < rs.len() implies rs[k].slice_index != rs[j].slice_index by {
            assert(rs[j].slice_index != rs[k].slice_index);
        }
        assert(m[rs[j].slice_index] == rs[j].data);
    }
    assert forall|i: int, j: int| 0 <= i < j < order.len() implies rs[#[trigger] order[i]].slice_index
        < rs[#[trigger] order[j]].slice_index by {
        assert(rs[order[i]].slice_index == keys[i]);
        assert(rs[order[j]].slice_index == keys[j]);
    }
    assert(keys.to_set().len() == keys.len());
    assert(idx.to_set().len() == idx.len());
    assert(keys.to_set() == idx.to_set());
    assert(idx.len() == rs.len());
    assert(order.len() == out.len() && out.len() == rs.len());
    assert(data_in_index_order(rs, out));
}

/// The response forwards what the metadata says of the file: each of
/// `content-type`, `etag` and `last-modified` is present exactly when the
/// metadata has it, with its text; `accept-ranges` is always `bytes`;
/// `content-length` is the length of the range asked for, or of the whole
/// file; `content-range` is present exactly for a range, and names it.
pub proof fn law_response_headers_forward_metadata(metadata: FileMetadata, client_range: Option<ByteRange>)
    ensures
        ({
            let h = response_headers_spec(metadata, client_range);
            &&& (metadata.content_type matches Some(v) ==> h.contains_key("content-type"@) && h["content-type"@]
                == encode_utf8(v@))
            &&& (metadata.content_type is None ==> !h.contains_key("content-type"@))
            &&& (metadata.etag matches Some(v) ==> h.contains_key("etag"@) && h["etag"@] == encode_utf8(v@))
            &&& (metadata.etag is None ==> !h.contains_key("etag"@))
            &&& (metadata.last_modified matches Some(v) ==> h.contains_key("last-modified"@)
                && h["last-modified"@] == encode_utf8(v@))
            &&& (metadata.last_modified is None ==> !h.contains_key("last-modified"@))
            &&& h.contains_key("accept-ranges"@) && h["accept-ranges"@] == encode_utf8("bytes"@)
            &&& h.contains_key("content-length"@)
            &&& (client_range matches Some(r) ==> h["content-length"@] == encode_utf8(dec_digits(r.spec_size() as nat))
                && h.contains_key("content-range"@) && h["content-range"@] == encode_utf8(
                content_range_text(r.start, r.end, metadata.content_length),
            ))
            &&& (client_range is None ==> h["content-length"@] == encode_utf8(
                dec_digits(metadata.content_length as nat),
            ) && !h.contains_key("content-range"@))
            &&& h.dom().len() == 2 + (if client_range is Some { 1int } else { 0int }) + (if metadata.content_type is Some {
                1int
            } else {
                0int
            }) + (if metadata.etag is Some { 1int } else { 0int }) + (if metadata.last_modified is Some {
                1int
            } else {
                0int
            })
        }),
{
    reveal_strlit("content-length");
    reveal_strlit("content-range");
    reveal_strlit("content-type");
    reveal_strlit("accept-ranges");
    reveal_strlit("etag");
    reveal_strlit("last-modified");
    assert("content-length"@.len() == 14);
    assert("content-range"@.len() == 13 && "content-range"@[0] == 'c');
    assert("content-type"@.len() == 12);
    assert("accept-ranges"@.len() == 13 && "accept-ranges"@[0] == 'a');
    assert("etag"@.len() == 4);
    assert("last-modified"@.len() == 13 && "last-modified"@[0] == 'l');
    let h = response_headers_spec(metadata, client_range);
    let e = Map::<Seq<char>, Seq<u8>>::empty();
    let base = match client_range {
        Some(r) => e.insert("content-length"@, encode_utf8(dec_digits(r.spec_size() as nat))).insert(
            "content-range"@,
            encode_utf8(content_range_text(r.start, r.end, metadata.content_length)),
        ),
        None => e.insert("content-length"@, encode_utf8(dec_digits(metadata.content_length as nat))),
    };
    assert(e.dom() =~= Set::<Seq<char>>::empty());
    assert(base.dom().finite());
    assert(base.dom().len() == if client_range is Some { 2int } else { 1int });
    let typed = insert_optional(base, "content-type"@, metadata.content_type);
    let ranged = typed.insert("accept-ranges"@, encode_utf8("bytes"@));
    let tagged = insert_optional(ranged, "etag"@, metadata.etag);
    assert(!base.contains_key("content-type"@));
    assert(!typed.contains_key("accept-ranges"@));
    assert(!ranged.contains_key("etag"@));
    assert(!tagged.contains_key("last-modified"@));
}

} // verus!
