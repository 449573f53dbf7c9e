use ipc_bench::mapping::{mapping_size, LayoutHeader, MappingError, MAX_MAPPING_SIZE};

#[test]
fn mapping_size_counts_header_and_both_regions() {
    assert_eq!(mapping_size(64, 1000, 1), Ok(2064));
    assert_eq!(mapping_size(128, 64, 256), Ok(128 + 2 * 64 * 256));
    assert_eq!(mapping_size(0, 0, 0), Ok(0));
    assert_eq!(mapping_size(MAX_MAPPING_SIZE, 0, 7), Ok(MAX_MAPPING_SIZE));
}

#[test]
fn mapping_size_refuses_overflow_and_oversize() {
    assert_eq!(mapping_size(64, usize::MAX, 64), Err(MappingError::TooLarge));
    assert_eq!(mapping_size(usize::MAX, 1, 1), Err(MappingError::TooLarge));
    assert_eq!(mapping_size(0, MAX_MAPPING_SIZE / 2 + 1, 1), Err(MappingError::TooLarge));
    assert_eq!(mapping_size(1, MAX_MAPPING_SIZE / 2, 1), Err(MappingError::TooLarge));
    assert_eq!(mapping_size(0, MAX_MAPPING_SIZE / 2, 1), Ok(MAX_MAPPING_SIZE));
    // The largest payload at the largest ring capacity does not fit.
    assert_eq!(mapping_size(128, 1_048_576 + 8, 256), Err(MappingError::TooLarge));
}

#[test]
fn attachment_requires_the_recorded_layout() {
    let header = LayoutHeader::new(256, 1, 64);
    assert_eq!(header.validate(LayoutHeader::new(256, 1, 64)), Ok(()));
    assert_eq!(header.validate(LayoutHeader::new(256, 1, 65)), Err(MappingError::LayoutMismatch));
    assert_eq!(header.validate(LayoutHeader::new(257, 1, 64)), Err(MappingError::LayoutMismatch));
    assert_eq!(header.validate(LayoutHeader::new(256, 2, 64)), Err(MappingError::LayoutMismatch));
}

#[test]
fn rejects_overflow_and_bad_attachment() {
    assert!(mapping_size(64, usize::MAX, 64).is_err());
    let header = LayoutHeader::new(256, 1, 64);
    assert!(header.validate(LayoutHeader::new(256, 1, 65)).is_err());
}
