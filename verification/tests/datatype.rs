//! Datatype messages.

use oxcdf::cursor::Cursor;
use oxcdf::error::Error;
use oxcdf::message::datatype::{
    ByteOrder, CharSet, Datatype, DatatypeClass, StringPad, VlenKind,
};

/// Build a datatype header: class/version byte, 3 bit-field bytes, size.
fn header(class: u8, version: u8, bitfield: u32, size: u32) -> Vec<u8> {
    let mut v = vec![(version << 4) | class];
    v.push((bitfield & 0xFF) as u8);
    v.push(((bitfield >> 8) & 0xFF) as u8);
    v.push(((bitfield >> 16) & 0xFF) as u8);
    v.extend_from_slice(&size.to_le_bytes());
    v
}

#[test]
fn parses_a_signed_little_endian_integer() {
    let mut d = header(0, 1, 0x08, 4);
    d.extend_from_slice(&0u16.to_le_bytes()); // bit offset
    d.extend_from_slice(&32u16.to_le_bytes()); // precision
    let t = Datatype::parse(&d).unwrap();
    assert_eq!(t.size, 4);
    assert_eq!(
        t.class,
        DatatypeClass::FixedPoint {
            order: ByteOrder::Little,
            signed: true,
            bit_offset: 0,
            bit_precision: 32
        }
    );
}

#[test]
fn parses_an_unsigned_big_endian_integer() {
    let mut d = header(0, 1, 0x01, 2);
    d.extend_from_slice(&0u16.to_le_bytes());
    d.extend_from_slice(&16u16.to_le_bytes());
    let t = Datatype::parse(&d).unwrap();
    assert_eq!(t.byte_order(), Some(ByteOrder::Big));
    match t.class {
        DatatypeClass::FixedPoint { signed, .. } => assert!(!signed),
        other => panic!("expected fixed point, got {other:?}"),
    }
}

#[test]
fn parses_a_big_endian_float() {
    // Bit 0 set, bit 6 clear: big endian. Sign at bit 31.
    let mut d = header(1, 1, 0x01 | (31 << 8), 4);
    d.extend_from_slice(&0u16.to_le_bytes());
    d.extend_from_slice(&32u16.to_le_bytes());
    d.push(23); // exponent location
    d.push(8); // exponent size
    d.push(0); // mantissa location
    d.push(23); // mantissa size
    d.extend_from_slice(&127u32.to_le_bytes());
    let t = Datatype::parse(&d).unwrap();
    assert_eq!(t.byte_order(), Some(ByteOrder::Big));
    match t.class {
        DatatypeClass::FloatingPoint {
            exponent_bias,
            sign_location,
            ..
        } => {
            assert_eq!(exponent_bias, 127);
            assert_eq!(sign_location, 31);
        }
        other => panic!("expected floating point, got {other:?}"),
    }
}

#[test]
fn rejects_vax_order_floats() {
    // Both order bits set is the VAX encoding.
    let mut d = header(1, 1, 0x01 | 0x40, 4);
    d.extend_from_slice(&[0u8; 12]);
    let err = Datatype::parse(&d).unwrap_err();
    assert!(matches!(err, Error::Unsupported(_)), "got {err:?}");
}

#[test]
fn parses_a_space_padded_ascii_string() {
    // Padding code 2 is space pad, which netCDF character variables use.
    let d = header(3, 1, 0x02, 8);
    let t = Datatype::parse(&d).unwrap();
    assert_eq!(t.size, 8);
    assert_eq!(
        t.class,
        DatatypeClass::String {
            pad: StringPad::SpacePad,
            charset: CharSet::Ascii
        }
    );
}

#[test]
fn parses_a_utf8_null_terminated_string() {
    let d = header(3, 1, 1 << 4, 16);
    let t = Datatype::parse(&d).unwrap();
    assert_eq!(
        t.class,
        DatatypeClass::String {
            pad: StringPad::NullTerminate,
            charset: CharSet::Utf8
        }
    );
}

#[test]
fn parses_an_object_reference() {
    let d = header(7, 1, 0x00, 8);
    let t = Datatype::parse(&d).unwrap();
    assert_eq!(t.class, DatatypeClass::Reference { kind: 0 });
}

/// This is the shape netCDF uses for `DIMENSION_LIST`: a variable-length
/// sequence whose base type is an object reference.
#[test]
fn parses_a_vlen_sequence_of_references() {
    let mut d = header(9, 1, 0x00, 16);
    d.extend(header(7, 1, 0x00, 8));
    let t = Datatype::parse(&d).unwrap();
    match t.class {
        DatatypeClass::VariableLength { kind, base, .. } => {
            assert_eq!(kind, VlenKind::Sequence);
            assert_eq!(base.class, DatatypeClass::Reference { kind: 0 });
        }
        other => panic!("expected a variable-length type, got {other:?}"),
    }
}

#[test]
fn parses_a_variable_length_string() {
    let mut d = header(9, 1, 0x01, 16);
    d.extend(header(3, 1, 0x00, 1));
    let t = Datatype::parse(&d).unwrap();
    match t.class {
        DatatypeClass::VariableLength { kind, .. } => assert_eq!(kind, VlenKind::String),
        other => panic!("expected a variable-length type, got {other:?}"),
    }
}

#[test]
fn parses_an_array_type() {
    // Version 3 array: rank, dims, then the base type.
    let mut d = header(10, 3, 0x00, 24);
    d.push(2); // rank
    d.extend_from_slice(&2u32.to_le_bytes());
    d.extend_from_slice(&3u32.to_le_bytes());
    d.extend(header(0, 1, 0x08, 4));
    d.extend_from_slice(&0u16.to_le_bytes());
    d.extend_from_slice(&32u16.to_le_bytes());
    let t = Datatype::parse(&d).unwrap();
    match t.class {
        DatatypeClass::Array { dims, base } => {
            assert_eq!(dims, vec![2, 3]);
            assert_eq!(base.size, 4);
        }
        other => panic!("expected an array type, got {other:?}"),
    }
}

#[test]
fn unknown_classes_are_reported_not_guessed() {
    // Class 2 is Time, which this reader does not decode.
    let d = header(2, 1, 0x00, 8);
    let t = Datatype::parse(&d).unwrap();
    assert_eq!(t.class, DatatypeClass::Unsupported { class: 2 });
    assert!(!t.is_decodable(), "callers must be able to see this");
}

#[test]
fn rejects_an_implausible_version() {
    let d = header(0, 0, 0x00, 4);
    assert!(Datatype::parse(&d).is_err());
}

#[test]
fn decodability_recurses_through_arrays() {
    let mut d = header(10, 3, 0x00, 16);
    d.push(1);
    d.extend_from_slice(&2u32.to_le_bytes());
    d.extend(header(2, 1, 0x00, 8)); // an undecodable Time base
    let t = Datatype::parse(&d).unwrap();
    assert!(!t.is_decodable());
}

/// A datatype is spelled by its own bytes, whatever stands around them.
#[test]
fn a_datatype_takes_its_own_bytes() {
    // An array of a compound of two members, one of them an enumeration.
    let mut int = header(0, 3, 0x08, 4);
    int.extend_from_slice(&[0, 0, 32, 0]);
    let mut named = header(8, 3, 2, 4);
    named.extend_from_slice(&int);
    named.extend_from_slice(b"OFF\0ON\0");
    named.extend_from_slice(&[0, 0, 0, 0, 1, 0, 0, 0]);
    let mut pair = header(6, 3, 2, 8);
    pair.extend_from_slice(b"a\0");
    pair.push(0);
    pair.extend_from_slice(&int);
    pair.extend_from_slice(b"b\0");
    pair.push(4);
    pair.extend_from_slice(&named);
    let mut array = header(10, 3, 0, 24);
    array.push(1);
    array.extend_from_slice(&3u32.to_le_bytes());
    array.extend_from_slice(&pair);

    let mut around = vec![0xEE; 5];
    around.extend_from_slice(&array);
    around.extend_from_slice(&[0xEE; 9]);
    let mut cur = Cursor::at(&around, 5);
    let inside = Datatype::parse_at(&mut cur).unwrap();
    assert_eq!(cur.pos(), 5 + array.len());
    let mut cur = Cursor::new(&array);
    let alone = Datatype::parse_at(&mut cur).unwrap();
    assert_eq!(cur.pos(), array.len());
    assert_eq!(format!("{inside:?}"), format!("{alone:?}"));
    match inside.class {
        DatatypeClass::Array { dims, base } => {
            assert_eq!(dims, vec![3]);
            assert_eq!(base.size, 8);
        }
        other => panic!("expected an array, got {other:?}"),
    }
    assert!(Datatype::parse(&array[..array.len() - 1]).is_err());
}
