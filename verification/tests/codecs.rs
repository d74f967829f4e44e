//! The codecs behind the filters.

use std::io::Write;

use oxcdf::filters::{
    bitshuffle, decode_chunk, inflate, shuffle, unbitshuffle, unblosc, unblosclz, unlz4, unshuffle,
    unzstd,
};
use oxcdf::message::filter::{Filter, FilterPipeline};
use oxcdf::Error;

fn deflate(data: &[u8]) -> Vec<u8> {
    let mut e = flate2::write::ZlibEncoder::new(Vec::new(), flate2::Compression::default());
    e.write_all(data).unwrap();
    e.finish().unwrap()
}

/// A run with structure, so that every codec shrinks it.
fn sample(n: usize) -> Vec<u8> {
    (0..n).map(|i| (i / 7 % 11) as u8).collect()
}

/// A Blosc container of one block.
fn blosc(flags: u8, typesize: u8, raw_len: usize, body: &[u8]) -> Vec<u8> {
    let mut out = vec![2, 1, flags, typesize];
    out.extend_from_slice(&(raw_len as u32).to_le_bytes());
    out.extend_from_slice(&(raw_len as u32).to_le_bytes());
    let total = 16 + 4 + 4 + body.len();
    out.extend_from_slice(&(total as u32).to_le_bytes());
    out.extend_from_slice(&20u32.to_le_bytes());
    out.extend_from_slice(&(body.len() as u32).to_le_bytes());
    out.extend_from_slice(body);
    out
}

fn one(id: u16, client: Vec<u32>) -> FilterPipeline {
    FilterPipeline {
        filters: vec![Filter {
            id,
            name: String::new(),
            flags: 0,
            client_data: client,
        }],
    }
}

#[test]
fn inflate_undoes_zlib() {
    let data = sample(500);
    let packed = deflate(&data);
    assert_ne!(packed, data);
    assert_eq!(inflate(&packed, data.len()).unwrap(), data);
    assert!(matches!(inflate(&[1, 2, 3], 3), Err(Error::Malformed(_))));
}

#[test]
fn unzstd_undoes_zstandard() {
    let data = sample(500);
    let packed = zstd::encode_all(&data[..], 3).unwrap();
    assert_ne!(packed, data);
    assert_eq!(unzstd(&packed, data.len()).unwrap(), data);
    assert_eq!(decode_chunk(&one(32015, vec![]), 0, packed, 500).unwrap(), data);
    assert!(unzstd(&[9, 9, 9, 9], 4).is_err());
}

#[test]
fn unlz4_undoes_lz4() {
    let data = sample(500);
    let packed = lz4_flex::block::compress(&data);
    assert_ne!(packed, data);
    assert_eq!(unlz4(&packed, data.len()).unwrap(), data);
    assert!(unlz4(&packed, 10).is_err());
}

#[test]
fn every_blosc_codec_decodes() {
    let data = sample(400);
    // LZ4 and LZ4HC share a decoder.
    let packed = lz4_flex::block::compress(&data);
    assert_eq!(unblosc(&blosc(1 << 5, 4, 400, &packed)).unwrap(), data);
    assert_eq!(unblosc(&blosc(2 << 5, 4, 400, &packed)).unwrap(), data);
    // zlib.
    assert_eq!(
        unblosc(&blosc(4 << 5, 4, 400, &deflate(&data))).unwrap(),
        data
    );
    // Zstandard.
    let packed = zstd::encode_all(&data[..], 3).unwrap();
    assert_eq!(unblosc(&blosc(5 << 5, 4, 400, &packed)).unwrap(), data);
    // Snappy is not here.
    assert!(matches!(
        unblosc(&blosc(3 << 5, 4, 400, &packed)),
        Err(Error::Unsupported(_))
    ));
}

#[test]
fn blosc_undoes_its_shuffles() {
    let data = sample(400);
    let bytes = deflate(&shuffle(&data, 4));
    assert_eq!(
        unblosc(&blosc((4 << 5) | 1, 4, 400, &bytes)).unwrap(),
        data
    );
    let bits = deflate(&bitshuffle(&data, 4));
    assert_eq!(unblosc(&blosc((4 << 5) | 4, 4, 400, &bits)).unwrap(), data);
    assert_eq!(
        decode_chunk(&one(32001, vec![]), 0, blosc(4 << 5, 4, 400, &deflate(&data)), 400).unwrap(),
        data
    );
}

#[test]
fn a_blosc_header_is_checked() {
    assert!(matches!(unblosc(&[2; 8]), Err(Error::Malformed(_))));
    let mut b = blosc(4 << 5, 4, 8, &deflate(&[1; 8]));
    b[0] = 9;
    assert!(matches!(unblosc(&b), Err(Error::Unsupported(_))));
    let mut b = blosc(4 << 5, 4, 8, &deflate(&[1; 8]));
    b[8..12].copy_from_slice(&[0; 4]);
    assert!(matches!(unblosc(&b), Err(Error::Malformed(_))));
    let mut b = blosc(4 << 5, 4, 8, &deflate(&[1; 8]));
    b[16..20].copy_from_slice(&u32::MAX.to_le_bytes());
    assert!(matches!(unblosc(&b), Err(Error::Malformed(_))));
}

#[test]
fn blosclz_literals_and_matches() {
    // Three literals, the shortest run a first token names, then a match that
    // repeats them.
    assert_eq!(unblosclz(&[2, b'a', b'b', b'c'], 3).unwrap(), b"abc");
    assert_eq!(
        unblosclz(&[2, b'a', b'b', b'c', 0x20, 2], 6).unwrap(),
        b"abcabc"
    );
    // A match of distance one repeats a byte.
    assert_eq!(unblosclz(&[0, b'x', 0x20, 0], 4).unwrap(), b"xxxx");
    assert!(unblosclz(&[2, b'a'], 3).is_err());
}

#[test]
fn bit_and_byte_shuffles_undo_each_other() {
    let data = sample(64);
    for size in [1usize, 2, 4, 8] {
        assert_eq!(unshuffle(&shuffle(&data, size), size), data);
        assert_eq!(shuffle(&unshuffle(&data, size), size), data);
        assert_eq!(unbitshuffle(&bitshuffle(&data, size), size), data);
        assert_eq!(bitshuffle(&unbitshuffle(&data, size), size), data);
    }
    // Sixteen one-byte elements: the first plane holds the low bits.
    let bits = bitshuffle(&[1, 0, 1, 0, 1, 0, 1, 0, 1, 1, 1, 1, 0, 0, 0, 0], 1);
    assert_eq!(bits[0], 0b0101_0101);
    assert_eq!(bits[1], 0b0000_1111);
    assert!(bits[2..].iter().all(|&b| b == 0));
}

/// Only a length field counts: literals of 255 may run as long as they like.
#[test]
fn unlz4_takes_long_runs_of_literals() {
    let n: usize = 9_000_000;
    let mut block = vec![0xF0];
    let rest = n - 15;
    block.resize(1 + rest / 255, 255);
    block.push((rest % 255) as u8);
    block.resize(block.len() + n, 255);
    assert_eq!(unlz4(&block, n).unwrap(), vec![255; n]);
    assert!(matches!(unlz4(&block, n - 1), Err(Error::Malformed(_))));
}

#[test]
fn unlz4_refuses_a_length_that_does_not_fit() {
    let mut block = vec![0xF0];
    block.resize(16_900_000, 255);
    match unlz4(&block, 100) {
        Err(Error::Malformed(m)) => assert_eq!(m, "lz4 block is too large to decompress"),
        other => panic!("expected an error, got {other:?}"),
    }
    // The same bytes behind an empty literal run spell a match length.
    let mut block = vec![0x1F, 7, 1, 0];
    block.resize(16_900_000, 255);
    assert!(matches!(unlz4(&block, 100), Err(Error::Malformed(_))));
    // A short field is the decoder's to judge.
    match unlz4(&[0xF0, 255, 255], 100) {
        Err(Error::Malformed(m)) => {
            assert!(m.starts_with("failed to decompress an lz4 block: "))
        }
        other => panic!("expected an error, got {other:?}"),
    }
}
