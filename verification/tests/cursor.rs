//! Reading fields from a buffer.

use oxcdf::cursor::{Cursor, Sizes};

#[test]
fn reads_little_endian_integers() {
    let buf = [0x01u8, 0x02, 0x03, 0x04, 0x05, 0x06, 0x07, 0x08];
    let mut c = Cursor::new(&buf);
    assert_eq!(c.u16().unwrap(), 0x0201);
    assert_eq!(c.u16().unwrap(), 0x0403);
    assert_eq!(c.u32().unwrap(), 0x0807_0605);
    assert!(c.is_empty());
}

#[test]
fn reads_a_narrow_integer() {
    let buf = [0xAAu8, 0xBB, 0xCC];
    let mut c = Cursor::new(&buf);
    assert_eq!(c.uint(3).unwrap(), 0x00CC_BBAA);
}

#[test]
fn detects_the_undefined_address() {
    let buf = [0xFFu8; 8];
    let mut c = Cursor::new(&buf);
    assert_eq!(c.address(Sizes::eight()).unwrap(), None);

    let buf4 = [0xFFu8; 4];
    let sizes = Sizes {
        offset: 4,
        length: 4,
    };
    let mut c = Cursor::new(&buf4);
    assert_eq!(c.address(sizes).unwrap(), None);
}

#[test]
fn reads_a_defined_address() {
    let buf = 0x1234u64.to_le_bytes();
    let mut c = Cursor::new(&buf);
    assert_eq!(c.address(Sizes::eight()).unwrap(), Some(0x1234));
}

#[test]
fn aligns_to_a_boundary() {
    let buf = [0u8; 16];
    let mut c = Cursor::new(&buf);
    c.skip(3).unwrap();
    c.align_to(8).unwrap();
    assert_eq!(c.pos(), 8);
    c.align_to(8).unwrap();
    assert_eq!(c.pos(), 8, "already aligned, must not move");
}

#[test]
fn reads_a_nul_terminated_string() {
    let buf = b"lat\0rest";
    let mut c = Cursor::new(buf);
    assert_eq!(c.cstring().unwrap(), "lat");
    assert_eq!(c.pos(), 4);
}

#[test]
fn pads_a_string_to_the_alignment() {
    // "lat\0" is 4 bytes consumed, so 4 more bytes of padding to reach 8.
    let buf = b"lat\0\0\0\0\0tail";
    let mut c = Cursor::new(buf);
    assert_eq!(c.cstring_padded(8).unwrap(), "lat");
    assert_eq!(c.pos(), 8);
}

#[test]
fn reads_a_fixed_width_string() {
    let buf = b"abc\0\0\0\0\0";
    let mut c = Cursor::new(buf);
    assert_eq!(c.fixed_string(8).unwrap(), "abc");
    assert_eq!(c.pos(), 8);
}

#[test]
fn rejects_a_read_past_the_end() {
    let buf = [0u8; 2];
    let mut c = Cursor::new(&buf);
    assert!(c.u32().is_err());
}

#[test]
fn rejects_an_unterminated_string() {
    let buf = b"no terminator";
    let mut c = Cursor::new(buf);
    assert!(c.cstring().is_err());
}
