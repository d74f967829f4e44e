//! Byte sources.

use oxcdf::error::Error;
use oxcdf::source::{ByteSource, MemorySource};

#[test]
fn memory_source_reads_a_range() {
    let src = MemorySource::new(vec![1, 2, 3, 4, 5]);
    assert_eq!(src.read_vec(1, 3).unwrap(), vec![2, 3, 4]);
    assert_eq!(src.size(), 5);
}

#[test]
fn memory_source_rejects_a_read_past_the_end() {
    let src = MemorySource::new(vec![1, 2, 3]);
    let err = src.read_vec(2, 5).unwrap_err();
    assert!(matches!(err, Error::OutOfBounds { .. }), "got {err:?}");
}

#[test]
fn memory_source_rejects_an_offset_past_the_end() {
    let src = MemorySource::new(vec![1, 2, 3]);
    assert!(src.read_vec(99, 1).is_err());
}

#[test]
fn a_failed_read_leaves_the_buffer_alone() {
    let src = MemorySource::new(vec![1, 2, 3]);
    let mut buf = [9u8; 2];
    assert!(src.read_exact_at(2, &mut buf).is_err());
    assert!(src.read_exact_at(50, &mut buf).is_err());
    assert_eq!(buf, [9, 9]);
    src.read_exact_at(1, &mut buf).unwrap();
    assert_eq!(buf, [2, 3]);
}
