use std::collections::BTreeMap;

use pingora_slice::error::SliceError;
use pingora_slice::headers::HeaderList;
use pingora_slice::models::{ByteRange, FileMetadata};
use pingora_slice::response_assembler::ResponseAssembler;
use pingora_slice::subrequest_manager::SubrequestResult;

fn create_test_metadata() -> FileMetadata {
    FileMetadata::with_headers(
        10240,
        true,
        Some("application/octet-stream".to_string()),
        Some("\"abc123\"".to_string()),
        Some("Wed, 21 Oct 2015 07:28:00 GMT".to_string()),
    )
}

fn result(index: usize, data: &str) -> SubrequestResult {
    SubrequestResult {
        slice_index: index,
        data: data.as_bytes().to_vec(),
        status: 206,
        headers: HeaderList::new(),
    }
}

#[test]
fn test_new() {
    let _assembler = ResponseAssembler::new();
}

#[test]
fn test_build_response_header_full_file() {
    let assembler = ResponseAssembler::new();
    let metadata = create_test_metadata();

    let result = assembler.build_response_header(&metadata, None);
    assert!(result.is_ok());

    let (status, headers) = result.unwrap();
    assert_eq!(status, 200);
    assert_eq!(headers.get("content-length").unwrap().as_slice(), b"10240");
    assert_eq!(headers.get("content-type").unwrap().as_slice(), b"application/octet-stream");
    assert_eq!(headers.get("accept-ranges").unwrap().as_slice(), b"bytes");
    assert_eq!(headers.get("etag").unwrap().as_slice(), b"\"abc123\"");
    assert!(headers.get("content-range").is_none());
}

#[test]
fn test_build_response_header_range_request() {
    let assembler = ResponseAssembler::new();
    let metadata = create_test_metadata();
    let range = ByteRange::new(0, 1023).unwrap();

    let result = assembler.build_response_header(&metadata, Some(range));
    assert!(result.is_ok());

    let (status, headers) = result.unwrap();
    assert_eq!(status, 206);
    assert_eq!(headers.get("content-length").unwrap().as_slice(), b"1024");
    assert_eq!(headers.get("content-range").unwrap().as_slice(), b"bytes 0-1023/10240");
    assert_eq!(headers.get("accept-ranges").unwrap().as_slice(), b"bytes");
}

#[test]
fn test_build_response_header_invalid_range() {
    let assembler = ResponseAssembler::new();
    let metadata = create_test_metadata();
    let range = ByteRange::new(10240, 20000).unwrap();

    let result = assembler.build_response_header(&metadata, Some(range));
    assert!(result.is_err());
}

#[test]
fn build_response_header_refuses_unsendable_etag() {
    let assembler = ResponseAssembler::new();
    let metadata = FileMetadata::with_headers(10, true, None, Some("bad\nvalue".to_string()), None);
    let result = assembler.build_response_header(&metadata, None);
    assert!(matches!(result, Err(SliceError::AssemblyError(_))));
}

#[test]
fn build_response_header_last_byte_range() {
    let assembler = ResponseAssembler::new();
    let metadata = FileMetadata::new(10240, true);
    let range = ByteRange::new(10239, 10239).unwrap();
    let (status, headers) = assembler.build_response_header(&metadata, Some(range)).unwrap();
    assert_eq!(status, 206);
    assert_eq!(headers.get("content-length").unwrap().as_slice(), b"1");
    assert_eq!(headers.get("content-range").unwrap().as_slice(), b"bytes 10239-10239/10240");
    assert!(headers.get("content-type").is_none());
    assert!(headers.get("etag").is_none());
}

#[test]
fn test_assemble_slices_ordered() {
    let assembler = ResponseAssembler::new();

    let results = vec![result(0, "slice0"), result(1, "slice1"), result(2, "slice2")];

    let assembled = assembler.assemble_slices(results);
    assert_eq!(assembled.len(), 3);
    assert_eq!(assembled.get(&0).unwrap(), &b"slice0".to_vec());
    assert_eq!(assembled.get(&1).unwrap(), &b"slice1".to_vec());
    assert_eq!(assembled.get(&2).unwrap(), &b"slice2".to_vec());
}

#[test]
fn test_assemble_slices_out_of_order() {
    let assembler = ResponseAssembler::new();

    let results = vec![result(2, "slice2"), result(0, "slice0"), result(1, "slice1")];

    let assembled = assembler.assemble_slices(results);

    let ordered: Vec<_> = assembled.values().collect();
    assert_eq!(ordered[0], &b"slice0".to_vec());
    assert_eq!(ordered[1], &b"slice1".to_vec());
    assert_eq!(ordered[2], &b"slice2".to_vec());
}

#[test]
fn assemble_slices_later_result_wins() {
    let assembler = ResponseAssembler::new();
    let results = vec![result(0, "old"), result(0, "new")];
    let assembled = assembler.assemble_slices(results);
    assert_eq!(assembled.len(), 1);
    assert_eq!(assembled.get(&0).unwrap(), &b"new".to_vec());
}

#[test]
fn test_stream_slices() {
    let assembler = ResponseAssembler::new();

    let mut slices = BTreeMap::new();
    slices.insert(0, b"slice0".to_vec());
    slices.insert(1, b"slice1".to_vec());
    slices.insert(2, b"slice2".to_vec());

    let streamed = assembler.stream_slices(slices);
    assert_eq!(streamed.len(), 3);
    assert_eq!(streamed[0], b"slice0".to_vec());
    assert_eq!(streamed[1], b"slice1".to_vec());
    assert_eq!(streamed[2], b"slice2".to_vec());
}

#[test]
fn stream_slices_orders_by_index() {
    let assembler = ResponseAssembler::new();
    let results = vec![result(7, "c"), result(3, "b"), result(1, "a")];
    let streamed = assembler.stream_slices(assembler.assemble_slices(results));
    assert_eq!(streamed, vec![b"a".to_vec(), b"b".to_vec(), b"c".to_vec()]);
}

#[test]
fn test_validate_completeness_success() {
    let assembler = ResponseAssembler::new();

    let mut slices = BTreeMap::new();
    slices.insert(0, b"slice0".to_vec());
    slices.insert(1, b"slice1".to_vec());
    slices.insert(2, b"slice2".to_vec());

    let result = assembler.validate_completeness(&slices, 3);
    assert!(result.is_ok());
}

#[test]
fn test_validate_completeness_missing_slice() {
    let assembler = ResponseAssembler::new();

    let mut slices = BTreeMap::new();
    slices.insert(0, b"slice0".to_vec());
    slices.insert(2, b"slice2".to_vec());

    let result = assembler.validate_completeness(&slices, 3);
    assert!(result.is_err());
}

#[test]
fn test_validate_completeness_wrong_count() {
    let assembler = ResponseAssembler::new();

    let mut slices = BTreeMap::new();
    slices.insert(0, b"slice0".to_vec());
    slices.insert(1, b"slice1".to_vec());

    let result = assembler.validate_completeness(&slices, 3);
    assert!(result.is_err());
}

#[test]
fn validate_completeness_same_count_wrong_indices() {
    let assembler = ResponseAssembler::new();
    let mut slices = BTreeMap::new();
    slices.insert(0, b"a".to_vec());
    slices.insert(5, b"b".to_vec());
    assert!(matches!(
        assembler.validate_completeness(&slices, 2),
        Err(SliceError::AssemblyError(_))
    ));
    assert!(assembler.validate_completeness(&BTreeMap::new(), 0).is_ok());
}

#[test]
fn error_texts_name_the_numbers() {
    let assembler = ResponseAssembler::new();
    let metadata = create_test_metadata();
    let range = ByteRange::new(0, 10240).unwrap();
    assert_eq!(
        assembler.build_response_header(&metadata, Some(range)).unwrap_err(),
        SliceError::InvalidRange("Range end 10240 exceeds file size 10240".to_string())
    );
    let mut slices = BTreeMap::new();
    slices.insert(0usize, b"a".to_vec());
    assert_eq!(
        assembler.validate_completeness(&slices, 3).unwrap_err(),
        SliceError::AssemblyError("Missing slices: expected 3, got 1".to_string())
    );
}

#[test]
fn assembled_then_streamed_in_index_order() {
    let assembler = ResponseAssembler::new();
    let results = vec![result(2, "slice2"), result(0, "slice0"), result(1, "slice1")];
    let streamed = assembler.stream_slices(assembler.assemble_slices(results));
    assert_eq!(streamed, vec![b"slice0".to_vec(), b"slice1".to_vec(), b"slice2".to_vec()]);
}
