//! The filters a chunk goes through.

use std::io::Write;

use oxcdf::checksum;
use oxcdf::error::Error;
use oxcdf::filters::{
    decode_chunk, inflate, pipeline_is_supported, shuffle, unshuffle, verify_and_strip_fletcher32,
};
use oxcdf::message::filter::{id, Filter, FilterPipeline, FLAG_OPTIONAL};

fn filter(id: u16, client: Vec<u32>) -> Filter {
    Filter {
        id,
        name: String::new(),
        flags: 0,
        client_data: client,
    }
}

fn deflate_bytes(data: &[u8]) -> Vec<u8> {
    let mut e = flate2::write::ZlibEncoder::new(Vec::new(), flate2::Compression::default());
    e.write_all(data).unwrap();
    e.finish().unwrap()
}

#[test]
fn shuffle_round_trips() {
    // 2, 4, 8 and 16 are gathered at a width known to the compiler; 3, 5
    // and 6 take the general path. Both must agree with `shuffle`.
    let data: Vec<u8> = (0..240).map(|i| (i % 251) as u8).collect();
    for element_size in [1usize, 2, 3, 4, 5, 6, 8, 16] {
        let s = shuffle(&data, element_size);
        assert_eq!(
            unshuffle(&s, element_size),
            data,
            "element size {element_size} must round trip"
        );
    }
}

/// The width that divides the buffer unevenly is the one the two paths are
/// most likely to disagree about.
#[test]
fn shuffle_round_trips_with_a_partial_trailing_element() {
    let data: Vec<u8> = (0..101).map(|i| (i % 251) as u8).collect();
    for element_size in [2usize, 3, 4, 8, 16] {
        let s = shuffle(&data, element_size);
        assert_eq!(
            unshuffle(&s, element_size),
            data,
            "element size {element_size} must round trip"
        );
    }
}

#[test]
fn shuffle_groups_bytes_by_significance() {
    // Three 4-byte elements. Shuffling collects byte 0 of each, then byte 1.
    let data = vec![
        0x00, 0x01, 0x02, 0x03, //
        0x10, 0x11, 0x12, 0x13, //
        0x20, 0x21, 0x22, 0x23,
    ];
    let s = shuffle(&data, 4);
    assert_eq!(&s[..3], &[0x00, 0x10, 0x20]);
    assert_eq!(&s[3..6], &[0x01, 0x11, 0x21]);
    assert_eq!(unshuffle(&s, 4), data);
}

#[test]
fn shuffle_leaves_a_trailing_partial_element_alone() {
    // 10 bytes with a 4-byte element leaves 2 bytes untouched at the end.
    let data: Vec<u8> = (0..10).collect();
    let s = shuffle(&data, 4);
    assert_eq!(&s[8..], &[8, 9], "the remainder is not shuffled");
    assert_eq!(unshuffle(&s, 4), data);
}

#[test]
fn unshuffle_is_a_no_op_for_single_byte_elements() {
    let data: Vec<u8> = (0..16).collect();
    assert_eq!(unshuffle(&data, 1), data);
    assert_eq!(unshuffle(&data, 0), data);
}

#[test]
fn inflate_recovers_deflated_bytes() {
    let original: Vec<u8> = (0..500).map(|i| (i % 7) as u8).collect();
    let compressed = deflate_bytes(&original);
    assert_eq!(inflate(&compressed, original.len()).unwrap(), original);
}

#[test]
fn inflate_reports_corrupt_input() {
    let err = inflate(&[1, 2, 3, 4, 5], 16).unwrap_err();
    assert!(matches!(err, Error::Malformed(_)), "got {err:?}");
}

#[test]
fn decode_chunk_undoes_shuffle_then_deflate_in_the_right_order() {
    let original: Vec<u8> = (0..128u32).flat_map(|v| v.to_le_bytes()).collect();
    // Write order: shuffle, then deflate.
    let shuffled = shuffle(&original, 4);
    let stored = deflate_bytes(&shuffled);

    let pipeline = FilterPipeline {
        filters: vec![filter(id::SHUFFLE, vec![4]), filter(id::DEFLATE, vec![6])],
    };
    let got = decode_chunk(&pipeline, 0, stored, original.len()).unwrap();
    assert_eq!(got, original);
}

#[test]
fn decode_chunk_honours_the_filter_mask() {
    let original: Vec<u8> = (0..64).collect();
    // Deflate was skipped for this chunk, so only shuffle was applied.
    let stored = shuffle(&original, 4);

    let pipeline = FilterPipeline {
        filters: vec![filter(id::SHUFFLE, vec![4]), filter(id::DEFLATE, vec![6])],
    };
    // Bit 1 marks the deflate stage as skipped.
    let got = decode_chunk(&pipeline, 0b10, stored, original.len()).unwrap();
    assert_eq!(got, original);
}

#[test]
fn fletcher32_round_trips_and_strips() {
    let payload: Vec<u8> = (0..40).collect();
    let sum = checksum::fletcher32(&payload);
    let mut stored = payload.clone();
    stored.extend_from_slice(&sum.to_le_bytes());
    assert_eq!(verify_and_strip_fletcher32(stored).unwrap(), payload);
}

#[test]
fn fletcher32_accepts_either_byte_order() {
    let payload: Vec<u8> = (0..40).collect();
    let sum = checksum::fletcher32(&payload);
    let mut stored = payload.clone();
    stored.extend_from_slice(&sum.to_be_bytes());
    assert_eq!(
        verify_and_strip_fletcher32(stored).unwrap(),
        payload,
        "HDF5 writes this checksum in native order, so both must be accepted"
    );
}

#[test]
fn fletcher32_rejects_a_corrupted_chunk() {
    let payload: Vec<u8> = (0..40).collect();
    let mut stored = payload.clone();
    stored.extend_from_slice(&0xDEADBEEFu32.to_le_bytes());
    let err = verify_and_strip_fletcher32(stored).unwrap_err();
    assert!(matches!(err, Error::ChecksumMismatch { .. }), "got {err:?}");
}

#[test]
fn an_unknown_mandatory_filter_is_reported() {
    let pipeline = FilterPipeline {
        filters: vec![filter(id::SZIP, vec![])],
    };
    assert!(!pipeline_is_supported(&pipeline));
    let err = decode_chunk(&pipeline, 0, vec![1, 2, 3], 3).unwrap_err();
    assert!(matches!(err, Error::Unsupported(_)), "got {err:?}");
}

/// The optional flag must not turn an undecodable filter into a silent
/// pass-through. It describes what a writer may skip, not what a chunk
/// actually went through.
#[test]
fn an_unknown_filter_is_refused_even_when_marked_optional() {
    let mut f = filter(id::SZIP, vec![]);
    f.flags = FLAG_OPTIONAL;
    let pipeline = FilterPipeline { filters: vec![f] };
    assert!(!pipeline_is_supported(&pipeline));
    let err = decode_chunk(&pipeline, 0, vec![1, 2, 3], 3).unwrap_err();
    assert!(matches!(err, Error::Unsupported(_)), "got {err:?}");
}

/// A filter the chunk's mask marks as skipped is genuinely absent from the
/// stored bytes, so it is right to do nothing for it.
#[test]
fn a_masked_out_unknown_filter_is_not_applied() {
    let pipeline = FilterPipeline {
        filters: vec![filter(id::SZIP, vec![])],
    };
    assert_eq!(
        decode_chunk(&pipeline, 0b1, vec![1, 2, 3], 3).unwrap(),
        vec![1, 2, 3]
    );
}

#[test]
fn an_empty_pipeline_returns_the_bytes_unchanged() {
    let pipeline = FilterPipeline::default();
    assert!(pipeline_is_supported(&pipeline));
    assert_eq!(
        decode_chunk(&pipeline, 0, vec![9, 8, 7], 3).unwrap(),
        vec![9, 8, 7]
    );
}
