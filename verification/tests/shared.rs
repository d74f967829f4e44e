//! Shared messages.

use oxcdf::cursor::Sizes;
use oxcdf::error::Error;
use oxcdf::message::shared::{SharedLocation, SharedMessage};

#[test]
fn reads_a_version_2_committed_pointer() {
    // Taken from a netCDF-4 file that declares a compound type: version 2,
    // type 2, then the eight-byte address of the committed datatype.
    let body = [0x02, 0x02, 0xff, 0, 0, 0, 0, 0, 0, 0];
    let shared = SharedMessage::parse(&body, Sizes::eight()).unwrap();

    assert_eq!(shared.version, 2);
    assert_eq!(shared.location, SharedLocation::Committed(255));
    assert_eq!(shared.committed_address("datatype").unwrap(), 255);
}

#[test]
fn reads_a_version_1_pointer_past_its_padding() {
    // Version 1 pads to eight bytes before the address.
    let mut body = vec![0x01, 0x00, 0, 0, 0, 0, 0, 0];
    body.extend_from_slice(&4096u64.to_le_bytes());

    let shared = SharedMessage::parse(&body, Sizes::eight()).unwrap();
    assert_eq!(shared.location, SharedLocation::Committed(4096));
}

#[test]
fn reads_a_version_3_committed_pointer() {
    let mut body = vec![0x03, 0x02];
    body.extend_from_slice(&1234u64.to_le_bytes());

    let shared = SharedMessage::parse(&body, Sizes::eight()).unwrap();
    assert_eq!(shared.location, SharedLocation::Committed(1234));
}

#[test]
fn reports_the_message_heap_as_unsupported() {
    let body = [0x03, 0x01, 0, 0, 0, 0, 0, 0, 0, 0];
    let shared = SharedMessage::parse(&body, Sizes::eight()).unwrap();

    assert_eq!(shared.location, SharedLocation::MessageHeap);
    let err = shared.committed_address("datatype").unwrap_err();
    assert!(matches!(err, Error::Unsupported(_)), "{err:?}");
}

#[test]
fn rejects_a_truncated_body() {
    assert!(SharedMessage::parse(&[0x02, 0x02, 0xff], Sizes::eight()).is_err());
}

#[test]
fn shared_rejects_an_unknown_version() {
    assert!(SharedMessage::parse(&[0x09, 0x02, 0, 0, 0, 0, 0, 0, 0, 0], Sizes::eight()).is_err());
}
