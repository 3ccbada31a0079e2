use pingora_slice::error::SliceError;
use pingora_slice::models::ByteRange;
use pingora_slice::slice_calculator::SliceCalculator;

#[test]
fn test_calculate_total_slices_exact_multiple() {
    let calculator = SliceCalculator::new(1024);
    assert_eq!(calculator.calculate_total_slices(4096), 4);
}

#[test]
fn test_calculate_total_slices_with_remainder() {
    let calculator = SliceCalculator::new(1024);
    assert_eq!(calculator.calculate_total_slices(4097), 5);
}

#[test]
fn test_calculate_total_slices_smaller_than_slice_size() {
    let calculator = SliceCalculator::new(1024);
    assert_eq!(calculator.calculate_total_slices(512), 1);
}

#[test]
fn test_calculate_total_slices_zero_size() {
    let calculator = SliceCalculator::new(1024);
    assert_eq!(calculator.calculate_total_slices(0), 0);
}

#[test]
fn test_calculate_slices_full_file() {
    let calculator = SliceCalculator::new(1024);
    let slices = calculator.calculate_slices(3000, None).unwrap();

    assert_eq!(slices.len(), 3);

    assert_eq!(slices[0].index, 0);
    assert_eq!(slices[0].range.start, 0);
    assert_eq!(slices[0].range.end, 1023);

    assert_eq!(slices[1].index, 1);
    assert_eq!(slices[1].range.start, 1024);
    assert_eq!(slices[1].range.end, 2047);

    assert_eq!(slices[2].index, 2);
    assert_eq!(slices[2].range.start, 2048);
    assert_eq!(slices[2].range.end, 2999);
}

#[test]
fn test_calculate_slices_with_client_range() {
    let calculator = SliceCalculator::new(1024);
    let client_range = ByteRange::new(1000, 3000).unwrap();
    let slices = calculator.calculate_slices(10000, Some(client_range)).unwrap();

    assert_eq!(slices.len(), 2);

    assert_eq!(slices[0].index, 0);
    assert_eq!(slices[0].range.start, 1000);
    assert_eq!(slices[0].range.end, 2023);

    assert_eq!(slices[1].index, 1);
    assert_eq!(slices[1].range.start, 2024);
    assert_eq!(slices[1].range.end, 3000);
}

#[test]
fn test_calculate_slices_client_range_beyond_file_size() {
    let calculator = SliceCalculator::new(1024);
    let client_range = ByteRange::new(5000, 10000).unwrap();
    let result = calculator.calculate_slices(4000, Some(client_range));

    assert!(result.is_err());
}

#[test]
fn test_calculate_slices_client_range_end_beyond_file_size() {
    let calculator = SliceCalculator::new(1024);
    let client_range = ByteRange::new(1000, 10000).unwrap();
    let slices = calculator.calculate_slices(3000, Some(client_range)).unwrap();

    assert_eq!(slices.last().unwrap().range.end, 2999);
}

#[test]
fn test_calculate_slices_empty_file() {
    let calculator = SliceCalculator::new(1024);
    let slices = calculator.calculate_slices(0, None).unwrap();
    assert_eq!(slices.len(), 0);
}

#[test]
fn test_calculate_slices_coverage() {
    let calculator = SliceCalculator::new(1000);
    let slices = calculator.calculate_slices(5500, None).unwrap();

    assert_eq!(slices[0].range.start, 0);

    for i in 0..slices.len() - 1 {
        assert_eq!(slices[i].range.end + 1, slices[i + 1].range.start);
    }

    assert_eq!(slices.last().unwrap().range.end, 5499);
}

#[test]
fn test_calculate_slices_no_overlap() {
    let calculator = SliceCalculator::new(1000);
    let slices = calculator.calculate_slices(5500, None).unwrap();

    for i in 0..slices.len() - 1 {
        for j in i + 1..slices.len() {
            assert!(
                slices[i].range.end < slices[j].range.start
                    || slices[j].range.end < slices[i].range.start
            );
        }
    }
}

#[test]
fn calculate_slices_range_starting_at_end_is_invalid() {
    let calculator = SliceCalculator::new(1024);
    let client_range = ByteRange::new(3000, 3500).unwrap();
    let result = calculator.calculate_slices(3000, Some(client_range));
    assert!(matches!(result, Err(SliceError::InvalidRange(_))));
}

#[test]
fn calculate_slices_sizes_add_up_to_the_range() {
    let calculator = SliceCalculator::new(700);
    let client_range = ByteRange::new(123, 4567).unwrap();
    let slices = calculator.calculate_slices(10000, Some(client_range)).unwrap();
    let total: u64 = slices.iter().map(|s| s.range.size()).sum();
    assert_eq!(total, 4567 - 123 + 1);
    assert_eq!(slices.len(), 7);
}

#[test]
fn byte_range_new_rejects_reversed_bounds() {
    assert!(matches!(ByteRange::new(10, 5), Err(SliceError::InvalidRange(_))));
    let r = ByteRange::new(5, 5).unwrap();
    assert_eq!(r.size(), 1);
}

#[test]
fn range_start_error_names_the_numbers() {
    let calculator = SliceCalculator::new(1024);
    let range = ByteRange::new(5000, 6000).unwrap();
    assert_eq!(
        calculator.calculate_slices(4096, Some(range)).unwrap_err(),
        SliceError::InvalidRange("Range start 5000 is beyond file size 4096".to_string())
    );
}
