//! Superblocks.

use oxcdf::checksum;
use oxcdf::cursor::Sizes;
use oxcdf::superblock::Superblock;
use oxcdf::{ByteSource, Error, MemorySource, HDF5_SIGNATURE};

/// A version 0 superblock of a file of `len` bytes, with the root object header
/// at 96.
fn version_zero(len: u64) -> Vec<u8> {
    let mut b = HDF5_SIGNATURE.to_vec();
    b.extend_from_slice(&[0, 0, 0, 0, 0, 8, 8, 0]);
    b.extend_from_slice(&4u16.to_le_bytes());
    b.extend_from_slice(&16u16.to_le_bytes());
    b.extend_from_slice(&0u32.to_le_bytes());
    b.extend_from_slice(&0u64.to_le_bytes()); // base address
    b.extend_from_slice(&[0xFF; 8]); // free space
    b.extend_from_slice(&len.to_le_bytes()); // end of file
    b.extend_from_slice(&[0xFF; 8]); // driver information
    b.extend_from_slice(&0u64.to_le_bytes()); // link name offset
    b.extend_from_slice(&0x60u64.to_le_bytes()); // root object header
    b.extend_from_slice(&0u32.to_le_bytes());
    b.extend_from_slice(&[0; 20]);
    b.resize(len as usize, 0);
    b
}

/// A version 2 superblock of a file of `len` bytes, with the root object header
/// at 48.
fn version_two(len: u64) -> Vec<u8> {
    let mut b = HDF5_SIGNATURE.to_vec();
    b.extend_from_slice(&[2, 8, 8, 0]);
    b.extend_from_slice(&0u64.to_le_bytes()); // base address
    b.extend_from_slice(&[0xFF; 8]); // extension
    b.extend_from_slice(&len.to_le_bytes()); // end of file
    b.extend_from_slice(&0x30u64.to_le_bytes()); // root object header
    let sum = checksum::metadata(&b);
    b.extend_from_slice(&sum.to_le_bytes());
    b.resize(len as usize, 0);
    b
}

#[test]
fn parses_superblock_version_zero_from_the_corpus() {
    let src = MemorySource::new(version_zero(512));
    let sb = Superblock::read(&src).unwrap();

    assert_eq!(sb.version, 0);
    assert_eq!(sb.sizes, Sizes::eight());
    assert_eq!(sb.base_address, 0);
    assert_eq!(sb.group_leaf_node_k, 4);
    assert_eq!(sb.group_internal_node_k, 16);
    assert_eq!(sb.indexed_storage_internal_node_k, 32);
    assert_eq!(
        sb.end_of_file_address,
        src.size(),
        "the recorded EOF should match the file length"
    );
    assert_eq!(
        sb.root_object_header_address().unwrap(),
        0x60,
        "root object header sits at 96"
    );
}

#[test]
fn parses_superblock_version_two_from_the_corpus() {
    let src = MemorySource::new(version_two(512));
    let sb = Superblock::read(&src).unwrap();

    assert_eq!(sb.version, 2);
    assert_eq!(sb.sizes, Sizes::eight());
    assert_eq!(sb.extension_address, None);
    assert_eq!(sb.end_of_file_address, src.size());
    assert_eq!(
        sb.root_object_header_address().unwrap(),
        0x30,
        "root object header sits at 48, where the OHDR signature is"
    );
}

#[test]
fn superblock_checksum_is_verified_on_every_v2_corpus_file() {
    let mut checked = 0;
    for len in [64, 512, 4096] {
        let sb = Superblock::read(&MemorySource::new(version_two(len))).unwrap();
        if sb.version >= 2 {
            checked += 1;
        }
    }
    assert!(checked >= 2);
}

#[test]
fn rejects_a_corrupted_v2_checksum() {
    let mut data = version_two(512);
    // Flip a bit inside the checksummed region (the EOF address).
    data[28] ^= 0xFF;
    let err = Superblock::read(&MemorySource::new(data)).unwrap_err();
    assert!(
        matches!(err, Error::ChecksumMismatch { .. }),
        "expected a checksum mismatch, got {err:?}"
    );
}

#[test]
fn rejects_an_unsupported_superblock_version() {
    let mut data = HDF5_SIGNATURE.to_vec();
    data.push(9); // version
    data.extend_from_slice(&[0u8; 87]);
    let src = MemorySource::new(data);
    let err = Superblock::read(&src).unwrap_err();
    assert!(matches!(err, Error::Unsupported(_)), "got {err:?}");
}

#[test]
fn rejects_an_implausible_address_width() {
    let mut data = HDF5_SIGNATURE.to_vec();
    data.push(2); // version 2
    data.push(7); // offset size, not a power of two
    data.push(8);
    data.extend_from_slice(&[0u8; 85]);
    let src = MemorySource::new(data);
    assert!(matches!(
        Superblock::read(&src).unwrap_err(),
        Error::Unsupported(_)
    ));
}

#[test]
fn resolve_adds_the_base_address() {
    let mut sb = Superblock::read(&MemorySource::new(version_two(512))).unwrap();
    assert_eq!(sb.resolve(0x30), 0x30, "base address is zero in this file");
    sb.base_address = 512;
    assert_eq!(sb.resolve(0x30), 0x230);
}

#[test]
fn finds_the_superblock_behind_a_user_block() {
    let mut data = vec![0u8; 1024];
    data.extend_from_slice(&version_two(128));
    let sb = Superblock::read(&MemorySource::new(data)).unwrap();
    assert_eq!(sb.superblock_offset, 1024);
    assert_eq!(sb.version, 2);
}

#[test]
fn a_file_without_a_signature_has_no_superblock() {
    assert!(Superblock::read(&MemorySource::new(vec![7u8; 2048])).is_err());
    assert!(Superblock::read(&MemorySource::new(Vec::new())).is_err());
}

#[test]
fn metadata_checksums_are_lookup3() {
    assert_eq!(checksum::metadata(b""), 0xdead_beef);
    assert_eq!(
        checksum::metadata(b"Four score and seven years ago"),
        0x1777_0551
    );
}

/// A version 1 superblock of eight-byte addresses is the longest there is.
#[test]
fn a_version_one_superblock_is_read_to_its_end() {
    let mut b = HDF5_SIGNATURE.to_vec();
    b.extend_from_slice(&[1, 0, 0, 0, 0, 8, 8, 0]);
    for k in [4u16, 16] {
        b.extend_from_slice(&k.to_le_bytes());
    }
    b.extend_from_slice(&0u32.to_le_bytes()); // consistency flags
    for k in [48u16, 0] {
        b.extend_from_slice(&k.to_le_bytes());
    }
    for address in [0u64, u64::MAX, 100, u64::MAX] {
        b.extend_from_slice(&address.to_le_bytes());
    }
    for field in [0u64, 96] {
        b.extend_from_slice(&field.to_le_bytes()); // link name, root object header
    }
    b.extend_from_slice(&[0; 8]); // cache type
    b.extend_from_slice(&[0; 16]); // scratch-pad
    assert_eq!(b.len(), 100);

    let sb = Superblock::read(&MemorySource::new(b.clone())).unwrap();
    assert_eq!(sb.version, 1);
    assert_eq!(sb.sizes, Sizes::eight());
    assert_eq!(sb.indexed_storage_internal_node_k, 48);
    assert_eq!(sb.group_leaf_node_k, 4);
    assert_eq!(sb.group_internal_node_k, 16);
    assert_eq!(sb.base_address, 0);
    assert_eq!(sb.end_of_file_address, 100);
    assert_eq!(sb.root_object_header_address().unwrap(), 96);

    b.truncate(99);
    assert!(Superblock::read(&MemorySource::new(b)).is_err());
}
