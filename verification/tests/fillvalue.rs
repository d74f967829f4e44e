//! Fill values.

use oxcdf::message::fillvalue::FillValue;

#[test]
fn parses_a_version_three_defined_fill_value() {
    let mut d = vec![3u8, 0x20];
    d.extend_from_slice(&4u32.to_le_bytes());
    d.extend_from_slice(&(-2147483647i32).to_le_bytes());
    let f = FillValue::parse(&d).unwrap();
    assert!(f.is_defined());
    assert_eq!(f.bytes.unwrap(), (-2147483647i32).to_le_bytes());
}

#[test]
fn a_version_three_message_without_the_flag_defines_nothing() {
    let f = FillValue::parse(&[3u8, 0x00]).unwrap();
    assert!(!f.is_defined());
}

#[test]
fn parses_a_version_two_defined_fill_value() {
    let mut d = vec![2u8, 2, 2, 1];
    d.extend_from_slice(&2u32.to_le_bytes());
    d.extend_from_slice(&7i16.to_le_bytes());
    let f = FillValue::parse(&d).unwrap();
    assert_eq!(f.bytes.unwrap(), 7i16.to_le_bytes());
}

#[test]
fn a_version_two_message_marked_undefined_defines_nothing() {
    let f = FillValue::parse(&[2u8, 2, 2, 0]).unwrap();
    assert!(!f.is_defined());
}

#[test]
fn fill_tiles_the_value_across_the_buffer() {
    let f = FillValue {
        bytes: Some(vec![0xAA, 0xBB]),
    };
    let mut buf = vec![0u8; 6];
    f.fill(&mut buf, 2);
    assert_eq!(buf, vec![0xAA, 0xBB, 0xAA, 0xBB, 0xAA, 0xBB]);
}

#[test]
fn fill_tiles_a_buffer_that_is_not_whole_elements() {
    // The doubling must not run past the end, and the part of an element
    // that fits gets the start of the value.
    let f = FillValue {
        bytes: Some(vec![1, 2, 3, 4]),
    };
    let mut buf = vec![0u8; 10];
    f.fill(&mut buf, 4);
    assert_eq!(buf, vec![1, 2, 3, 4, 1, 2, 3, 4, 1, 2]);
}

#[test]
fn fill_tiles_a_buffer_shorter_than_one_element() {
    let f = FillValue {
        bytes: Some(vec![9, 8, 7, 6]),
    };
    let mut buf = vec![0u8; 3];
    f.fill(&mut buf, 4);
    assert_eq!(buf, vec![9, 8, 7]);
}

#[test]
fn fill_tiles_a_long_buffer_exactly() {
    // Long enough that the doubling takes several rounds.
    let value = (-2147483647i32).to_ne_bytes();
    let f = FillValue {
        bytes: Some(value.to_vec()),
    };
    let mut buf = vec![0u8; 4 * 1000];
    f.fill(&mut buf, 4);
    assert!(buf.chunks_exact(4).all(|c| c == value));
}

#[test]
fn fill_leaves_an_empty_buffer_alone() {
    let f = FillValue {
        bytes: Some(vec![1, 2]),
    };
    f.fill(&mut [], 2);
}

#[test]
fn fill_zeroes_when_nothing_is_defined() {
    let f = FillValue { bytes: None };
    let mut buf = vec![9u8; 4];
    f.fill(&mut buf, 2);
    assert_eq!(buf, vec![0, 0, 0, 0]);
}

#[test]
fn fill_zeroes_when_the_value_width_does_not_match_the_element() {
    // Refusing to tile a mismatched width is safer than guessing.
    let f = FillValue {
        bytes: Some(vec![1, 2, 3]),
    };
    let mut buf = vec![9u8; 4];
    f.fill(&mut buf, 2);
    assert_eq!(buf, vec![0, 0, 0, 0]);
}

#[test]
fn fillvalue_rejects_an_unknown_version() {
    assert!(FillValue::parse(&[9u8, 0, 0, 0]).is_err());
}

#[test]
fn an_unversioned_message_is_a_size_and_a_value() {
    let mut d = 2u32.to_le_bytes().to_vec();
    d.extend_from_slice(&9i16.to_le_bytes());
    assert_eq!(
        FillValue::parse_old(&d).unwrap().bytes,
        Some(9i16.to_le_bytes().to_vec())
    );
    // Too short, empty, or a size that the message does not hold.
    assert!(!FillValue::parse_old(&d[..3]).unwrap().is_defined());
    assert!(!FillValue::parse_old(&d[..5]).unwrap().is_defined());
    assert!(!FillValue::parse_old(&0u32.to_le_bytes()).unwrap().is_defined());
}
