//! Dataspace messages.

use oxcdf::cursor::Sizes;
use oxcdf::error::Error;
use oxcdf::message::dataspace::{Dataspace, DataspaceKind};

fn v2_simple(dims: &[u64], max: Option<&[u64]>) -> Vec<u8> {
    let mut v = vec![2u8, dims.len() as u8, if max.is_some() { 1 } else { 0 }, 1];
    for d in dims {
        v.extend_from_slice(&d.to_le_bytes());
    }
    if let Some(m) = max {
        for d in m {
            v.extend_from_slice(&d.to_le_bytes());
        }
    }
    v
}

#[test]
fn parses_a_simple_two_dimensional_space() {
    let data = v2_simple(&[4, 5], None);
    let ds = Dataspace::parse(&data, Sizes::eight()).unwrap();
    assert_eq!(ds.kind, DataspaceKind::Simple);
    assert_eq!(ds.dims, vec![4, 5]);
    assert_eq!(ds.rank(), 2);
    assert_eq!(ds.element_count(), 20);
    assert!(!ds.has_unlimited());
}

#[test]
fn parses_maximum_dimensions_and_detects_unlimited() {
    let data = v2_simple(&[3], Some(&[u64::MAX]));
    let ds = Dataspace::parse(&data, Sizes::eight()).unwrap();
    assert_eq!(ds.max_dims, Some(vec![u64::MAX]));
    assert!(ds.has_unlimited(), "all-bits-set marks an unlimited axis");
}

#[test]
fn a_scalar_space_holds_one_element() {
    let data = vec![2u8, 0, 0, 0];
    let ds = Dataspace::parse(&data, Sizes::eight()).unwrap();
    assert_eq!(ds.kind, DataspaceKind::Scalar);
    assert_eq!(ds.rank(), 0);
    assert_eq!(ds.element_count(), 1);
}

#[test]
fn a_null_space_holds_no_elements() {
    let data = vec![2u8, 0, 0, 2];
    let ds = Dataspace::parse(&data, Sizes::eight()).unwrap();
    assert_eq!(ds.kind, DataspaceKind::Null);
    assert_eq!(ds.element_count(), 0);
}

#[test]
fn parses_a_version_one_space() {
    let mut data = vec![1u8, 2, 0, 0, 0, 0, 0, 0];
    data.extend_from_slice(&7u64.to_le_bytes());
    data.extend_from_slice(&8u64.to_le_bytes());
    let ds = Dataspace::parse(&data, Sizes::eight()).unwrap();
    assert_eq!(ds.dims, vec![7, 8]);
    assert_eq!(ds.kind, DataspaceKind::Simple);
}

#[test]
fn a_version_one_space_of_rank_zero_is_scalar() {
    let data = vec![1u8, 0, 0, 0, 0, 0, 0, 0];
    let ds = Dataspace::parse(&data, Sizes::eight()).unwrap();
    assert_eq!(ds.kind, DataspaceKind::Scalar);
    assert_eq!(ds.element_count(), 1);
}

#[test]
fn version_one_skips_permutation_indices() {
    // Flags bit 1 set: the message carries a permutation block that must be
    // consumed even though its contents are meaningless.
    let mut data = vec![1u8, 1, 0x02, 0, 0, 0, 0, 0];
    data.extend_from_slice(&5u64.to_le_bytes()); // dim
    data.extend_from_slice(&0u64.to_le_bytes()); // permutation
    let ds = Dataspace::parse(&data, Sizes::eight()).unwrap();
    assert_eq!(ds.dims, vec![5]);
}

#[test]
fn dataspace_rejects_an_unknown_version() {
    let err = Dataspace::parse(&[9u8, 0, 0, 0], Sizes::eight()).unwrap_err();
    assert!(matches!(err, Error::Unsupported(_)), "got {err:?}");
}

/// The extents are read over, so what follows them is found, and then dropped.
#[test]
fn a_scalar_space_has_no_dimensions_whatever_its_rank() {
    for (code, kind, count) in [
        (0u8, DataspaceKind::Scalar, 1),
        (2, DataspaceKind::Null, 0),
    ] {
        let mut data = v2_simple(&[4, 5], None);
        data[3] = code;
        let ds = Dataspace::parse(&data, Sizes::eight()).unwrap();
        assert_eq!(ds.kind, kind);
        assert!(ds.dims.is_empty());
        assert_eq!(ds.max_dims, None);
        assert_eq!(ds.rank(), 0);
        assert_eq!(ds.element_count(), count);

        let mut data = v2_simple(&[4, 5], Some(&[4, u64::MAX]));
        data[3] = code;
        let ds = Dataspace::parse(&data, Sizes::eight()).unwrap();
        assert!(ds.dims.is_empty());
        assert_eq!(ds.max_dims, Some(vec![]));
        assert!(!ds.has_unlimited());

        data.truncate(20);
        assert!(Dataspace::parse(&data, Sizes::eight()).is_err());
    }
}
