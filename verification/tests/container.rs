//! Telling the containers apart.

use oxcdf::container::{detect_container, Container, CDF_SIGNATURES, HDF5_SIGNATURE};
use oxcdf::source::MemorySource;

#[test]
fn detects_hdf5_at_offset_zero() {
    let mut data = HDF5_SIGNATURE.to_vec();
    data.extend_from_slice(&[0u8; 64]);
    let src = MemorySource::new(data);
    assert_eq!(detect_container(&src).unwrap(), Container::Hdf5);
}

#[test]
fn detects_hdf5_behind_a_user_block() {
    let mut data = vec![0u8; 512];
    data.extend_from_slice(&HDF5_SIGNATURE);
    data.extend_from_slice(&[0u8; 64]);
    let src = MemorySource::new(data);
    assert_eq!(detect_container(&src).unwrap(), Container::Hdf5);
}

#[test]
fn detects_the_classic_containers() {
    for (sig, want) in [
        (CDF_SIGNATURES[0], Container::Cdf1),
        (CDF_SIGNATURES[1], Container::Cdf2),
        (CDF_SIGNATURES[2], Container::Cdf5),
    ] {
        let mut data = sig.to_vec();
        data.extend_from_slice(&[0u8; 64]);
        let src = MemorySource::new(data);
        assert_eq!(detect_container(&src).unwrap(), want);
    }
}

#[test]
fn rejects_an_unknown_container() {
    let src = MemorySource::new(vec![0u8; 4096]);
    assert!(detect_container(&src).is_err());
}
