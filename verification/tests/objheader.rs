//! Object headers.

use oxcdf::checksum;
use oxcdf::context::Ctx;
use oxcdf::cursor::Sizes;
use oxcdf::objheader::{MessageType, ObjectHeader};
use oxcdf::superblock::{RootGroup, Superblock};
use oxcdf::{Error, MemorySource};

fn superblock(version: u8) -> Superblock {
    Superblock {
        version,
        sizes: Sizes::eight(),
        superblock_offset: 0,
        base_address: 0,
        end_of_file_address: 0,
        extension_address: None,
        root: RootGroup::ObjectHeader(0x30),
        group_internal_node_k: 0,
        group_leaf_node_k: 0,
        indexed_storage_internal_node_k: 32,
    }
}

/// Frame one version 1 message.
fn v1(code: u16, body: &[u8]) -> Vec<u8> {
    let padded = body.len().div_ceil(8) * 8;
    let mut out = code.to_le_bytes().to_vec();
    out.extend_from_slice(&(padded as u16).to_le_bytes());
    out.extend_from_slice(&[0, 0, 0, 0]);
    out.extend_from_slice(body);
    out.resize(8 + padded, 0);
    out
}

/// A version 1 header over `messages`.
fn header_v1(count: u16, messages: &[u8]) -> Vec<u8> {
    let mut out = vec![1, 0];
    out.extend_from_slice(&count.to_le_bytes());
    out.extend_from_slice(&1u32.to_le_bytes());
    out.extend_from_slice(&(messages.len() as u32).to_le_bytes());
    out.extend_from_slice(&[0; 4]);
    out.extend_from_slice(messages);
    out
}

/// Frame one version 2 message without a creation order.
fn v2(code: u8, body: &[u8]) -> Vec<u8> {
    let mut out = vec![code];
    out.extend_from_slice(&(body.len() as u16).to_le_bytes());
    out.push(0);
    out.extend_from_slice(body);
    out
}

/// A version 2 header over `messages`, with its checksum.
fn header_v2(messages: &[u8]) -> Vec<u8> {
    let mut out = b"OHDR".to_vec();
    out.push(2);
    out.push(0); // a one-byte size, no times, no creation order
    out.push(messages.len() as u8);
    out.extend_from_slice(messages);
    let sum = checksum::metadata(&out);
    out.extend_from_slice(&sum.to_le_bytes());
    out
}

/// A continuation block over `messages`, with its checksum.
fn continuation_v2(messages: &[u8]) -> Vec<u8> {
    let mut out = b"OCHK".to_vec();
    out.extend_from_slice(messages);
    let sum = checksum::metadata(&out);
    out.extend_from_slice(&sum.to_le_bytes());
    out
}

/// A file with `header` at 48.
fn file(header: &[u8]) -> Vec<u8> {
    let mut out = vec![0u8; 0x30];
    out.extend_from_slice(header);
    out.resize(1024, 0);
    out
}

fn read(data: Vec<u8>, version: u8) -> Result<ObjectHeader, Error> {
    let src = MemorySource::new(data);
    let sb = superblock(version);
    ObjectHeader::read(Ctx::new(&src, &sb), 0x30)
}

#[test]
fn message_codes_map_to_types() {
    assert_eq!(MessageType::from_code(0x01), MessageType::Dataspace);
    assert_eq!(MessageType::from_code(0x08), MessageType::DataLayout);
    assert_eq!(MessageType::from_code(0x11), MessageType::SymbolTable);
    assert_eq!(MessageType::from_code(0xFF), MessageType::Unknown(0xFF));
}

#[test]
fn reads_a_version_one_root_group_header() {
    let mut m = v1(0x11, &[1; 16]);
    m.extend_from_slice(&v1(0x0C, &[2; 24]));
    let oh = read(file(&header_v1(2, &m)), 0).unwrap();

    assert_eq!(oh.version, 1);
    assert_eq!(oh.address, 0x30);
    assert!(oh.message_of(MessageType::SymbolTable).is_some());
    assert!(oh.message_of(MessageType::Attribute).is_some());
    assert_eq!(oh.messages_of(MessageType::Attribute).len(), 1);
    assert_eq!(
        oh.message_of(MessageType::SymbolTable).unwrap().data,
        vec![1; 16]
    );
    assert!(oh.message_of(MessageType::Dataspace).is_none());
}

#[test]
fn reads_a_version_two_root_group_header() {
    let oh = read(file(&header_v2(&v2(0x02, &[0; 18]))), 2).unwrap();

    assert_eq!(oh.version, 2);
    assert!(
        oh.message_of(MessageType::LinkInfo).is_some(),
        "a v2 group stores links through a link info message"
    );
}

#[test]
fn detects_version_two_headers_under_a_version_zero_superblock() {
    let oh = read(file(&header_v2(&v2(0x02, &[0; 18]))), 0).unwrap();
    assert_eq!(oh.version, 2);
}

#[test]
fn version_two_headers_pass_their_checksums() {
    let mut m = v2(0x02, &[0; 18]);
    m.extend_from_slice(&v2(0x0A, &[0; 2]));
    read(file(&header_v2(&m)), 2).unwrap();
}

#[test]
fn rejects_a_corrupted_object_header_checksum() {
    let mut data = file(&header_v2(&v2(0x02, &[0; 18])));
    // The root object header body starts just past the OHDR prefix at 0x30.
    data[0x40] ^= 0xFF;
    let err = read(data, 2).unwrap_err();
    assert!(
        matches!(err, Error::ChecksumMismatch { .. }),
        "expected a checksum mismatch, got {err:?}"
    );
}

#[test]
fn nil_and_continuation_messages_are_not_surfaced() {
    let second = continuation_v2(&v2(0x01, &[5; 8]));
    let mut pointer = 512u64.to_le_bytes().to_vec();
    pointer.extend_from_slice(&(second.len() as u64).to_le_bytes());
    let mut m = v2(0x00, &[0; 4]);
    m.extend_from_slice(&v2(0x10, &pointer));
    let mut data = file(&header_v2(&m));
    data[512..512 + second.len()].copy_from_slice(&second);

    let oh = read(data, 2).unwrap();
    assert!(
        !oh.messages.iter().any(|m| m.kind == MessageType::Nil
            || m.kind == MessageType::ObjectHeaderContinuation),
        "padding and continuation pointers are framing details, not content"
    );
    assert_eq!(oh.messages.len(), 1);
    assert_eq!(oh.messages[0].kind, MessageType::Dataspace);
    assert_eq!(oh.messages[0].data, vec![5; 8]);
}

#[test]
fn follows_a_version_one_continuation() {
    let second = v1(0x03, &[7; 8]);
    let mut pointer = 512u64.to_le_bytes().to_vec();
    pointer.extend_from_slice(&(second.len() as u64).to_le_bytes());
    let mut m = v1(0x01, &[6; 8]);
    m.extend_from_slice(&v1(0x10, &pointer));
    let mut data = file(&header_v1(3, &m));
    data[512..512 + second.len()].copy_from_slice(&second);

    let oh = read(data, 0).unwrap();
    let kinds: Vec<MessageType> = oh.messages.iter().map(|m| m.kind).collect();
    assert_eq!(kinds, vec![MessageType::Dataspace, MessageType::Datatype]);
}

#[test]
fn a_header_past_the_end_is_out_of_bounds() {
    let src = MemorySource::new(vec![0; 16]);
    let sb = superblock(0);
    let err = ObjectHeader::read(Ctx::new(&src, &sb), 4096).unwrap_err();
    assert!(matches!(err, Error::OutOfBounds { .. }), "got {err:?}");
}

/// Times, the phase-change pair and an eight-byte size make the longest prefix.
#[test]
fn the_longest_version_two_prefix_is_read() {
    let m = v2(0x02, &[7; 18]);
    let mut header = b"OHDR".to_vec();
    header.push(2);
    header.push(0x33);
    header.extend_from_slice(&[5; 16]); // times
    header.extend_from_slice(&[8, 0, 6, 0]); // phase change
    header.extend_from_slice(&(m.len() as u64).to_le_bytes());
    assert_eq!(header.len(), 34);
    header.extend_from_slice(&m);
    let sum = checksum::metadata(&header);
    header.extend_from_slice(&sum.to_le_bytes());

    let oh = read(file(&header), 2).unwrap();
    assert_eq!(oh.version, 2);
    assert_eq!(
        oh.message_of(MessageType::LinkInfo).unwrap().data,
        vec![7; 18]
    );

    let last = header.len() - 1;
    header[last] ^= 1;
    assert!(matches!(
        read(file(&header), 2),
        Err(Error::ChecksumMismatch { .. })
    ));
}

/// A continuation block is checked like the first block.
#[test]
fn a_damaged_continuation_block_fails_its_checksum() {
    let mut block = continuation_v2(&v2(0x02, &[7; 18]));
    let mut target = 512u64.to_le_bytes().to_vec();
    target.extend_from_slice(&(block.len() as u64).to_le_bytes());
    let mut data = file(&header_v2(&v2(0x10, &target)));
    data[512..512 + block.len()].copy_from_slice(&block);
    assert!(read(data.clone(), 2)
        .unwrap()
        .message_of(MessageType::LinkInfo)
        .is_some());

    block[10] ^= 1;
    data[512..512 + block.len()].copy_from_slice(&block);
    assert!(matches!(
        read(data, 2),
        Err(Error::ChecksumMismatch { .. })
    ));
}
