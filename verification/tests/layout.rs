//! Data layout messages.

use oxcdf::cursor::Sizes;
use oxcdf::error::Error;
use oxcdf::message::layout::{ChunkIndex, Layout, FLAG_SINGLE_INDEX_WITH_FILTER};

#[test]
fn parses_a_version_three_contiguous_layout() {
    let mut d = vec![3u8, 1];
    d.extend_from_slice(&0x1234u64.to_le_bytes());
    d.extend_from_slice(&960u64.to_le_bytes());
    let l = Layout::parse(&d, Sizes::eight()).unwrap();
    assert_eq!(
        l,
        Layout::Contiguous {
            address: Some(0x1234),
            size: 960
        }
    );
}

#[test]
fn an_unwritten_contiguous_dataset_has_no_address() {
    let mut d = vec![3u8, 1];
    d.extend_from_slice(&u64::MAX.to_le_bytes());
    d.extend_from_slice(&0u64.to_le_bytes());
    let l = Layout::parse(&d, Sizes::eight()).unwrap();
    assert_eq!(
        l,
        Layout::Contiguous {
            address: None,
            size: 0
        }
    );
}

#[test]
fn parses_a_version_three_chunked_layout() {
    // Dimensionality 3 means a rank-2 chunk plus the element size.
    let mut d = vec![3u8, 2, 3];
    d.extend_from_slice(&0xABCDu64.to_le_bytes());
    d.extend_from_slice(&7u32.to_le_bytes());
    d.extend_from_slice(&4u32.to_le_bytes());
    d.extend_from_slice(&4u32.to_le_bytes()); // element size
    let l = Layout::parse(&d, Sizes::eight()).unwrap();
    assert_eq!(
        l,
        Layout::Chunked {
            address: Some(0xABCD),
            chunk_dims: vec![7, 4],
            element_size: 4,
            index: ChunkIndex::BtreeV1
        }
    );
    assert_eq!(l.chunk_dims(), Some(&[7u32, 4][..]));
}

#[test]
fn parses_a_version_three_compact_layout() {
    let mut d = vec![3u8, 0];
    d.extend_from_slice(&4u16.to_le_bytes());
    d.extend_from_slice(&[1, 2, 3, 4]);
    let l = Layout::parse(&d, Sizes::eight()).unwrap();
    assert_eq!(
        l,
        Layout::Compact {
            data: vec![1, 2, 3, 4]
        }
    );
}

#[test]
fn parses_a_version_one_chunked_layout() {
    let mut d = vec![1u8, 3, 2, 0, 0, 0, 0, 0];
    d.extend_from_slice(&0x99u64.to_le_bytes());
    d.extend_from_slice(&10u32.to_le_bytes());
    d.extend_from_slice(&20u32.to_le_bytes());
    d.extend_from_slice(&8u32.to_le_bytes()); // element size
    let l = Layout::parse(&d, Sizes::eight()).unwrap();
    match l {
        Layout::Chunked {
            chunk_dims,
            element_size,
            ..
        } => {
            assert_eq!(chunk_dims, vec![10, 20]);
            assert_eq!(element_size, 8);
        }
        other => panic!("expected a chunked layout, got {other:?}"),
    }
}

#[test]
fn parses_a_version_four_single_chunk_index() {
    let mut d = vec![4u8, 2, FLAG_SINGLE_INDEX_WITH_FILTER, 3, 8];
    d.extend_from_slice(&4u64.to_le_bytes());
    d.extend_from_slice(&5u64.to_le_bytes());
    d.extend_from_slice(&4u64.to_le_bytes()); // element size
    d.push(1); // index type: single chunk
    d.extend_from_slice(&123u64.to_le_bytes()); // filtered size
    d.extend_from_slice(&0u32.to_le_bytes()); // filter mask
    d.extend_from_slice(&0x777u64.to_le_bytes()); // address
    let l = Layout::parse(&d, Sizes::eight()).unwrap();
    match l {
        Layout::Chunked {
            address,
            chunk_dims,
            index,
            ..
        } => {
            assert_eq!(address, Some(0x777));
            assert_eq!(chunk_dims, vec![4, 5]);
            assert_eq!(
                index,
                ChunkIndex::SingleChunk {
                    filtered_size: 123,
                    filter_mask: 0
                }
            );
        }
        other => panic!("expected a chunked layout, got {other:?}"),
    }
}

#[test]
fn rejects_a_chunked_layout_with_zero_dimensionality() {
    let d = vec![3u8, 2, 0];
    assert!(Layout::parse(&d, Sizes::eight()).is_err());
}

#[test]
fn rejects_an_unknown_layout_version() {
    let err = Layout::parse(&[9u8, 1], Sizes::eight()).unwrap_err();
    assert!(matches!(err, Error::Unsupported(_)), "got {err:?}");
}
