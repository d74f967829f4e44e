//! Files of which only some pages are in memory.

use std::sync::Arc;

use oxcdf::container::detect_container;
use oxcdf::pages::Pages;
use oxcdf::superblock::Superblock;
use oxcdf::{ByteSource, Container, Error, MemorySource, HDF5_SIGNATURE};

fn file() -> Vec<u8> {
    (0..100u8).collect()
}

fn page(bytes: &[u8], number: u64, size: u64) -> Vec<u8> {
    let start = (number * size) as usize;
    let end = (start + size as usize).min(bytes.len());
    bytes[start..end].to_vec()
}

#[test]
fn a_read_inside_the_pages_gives_the_bytes() {
    let bytes = file();
    let mut pages = Pages::new(100, 16);
    for n in 0..7 {
        pages.insert(n, page(&bytes, n, 16));
    }
    for (offset, len) in [(0u64, 100usize), (15, 2), (31, 40), (96, 4), (50, 0)] {
        let start = offset as usize;
        assert_eq!(
            pages.read_vec(offset, len).unwrap(),
            bytes[start..start + len]
        );
        assert!(pages.missing(offset, len as u64).is_empty());
    }
    assert_eq!(pages.size(), 100);
}

#[test]
fn a_read_outside_the_pages_is_incomplete() {
    let bytes = file();
    let mut pages = Pages::new(100, 16);
    pages.insert(1, page(&bytes, 1, 16));
    assert!(pages.read_vec(16, 16).is_ok());
    for (offset, len, gone) in [
        (0u64, 1usize, vec![0u64]),
        (31, 2, vec![2]),
        (10, 60, vec![0, 2, 3, 4]),
        (99, 1, vec![6]),
    ] {
        assert!(matches!(
            pages.read_vec(offset, len),
            Err(Error::Incomplete)
        ));
        assert_eq!(pages.missing(offset, len as u64), gone);
    }
}

#[test]
fn a_read_past_the_end_is_out_of_bounds() {
    let pages = Pages::new(100, 16);
    assert!(matches!(
        pages.read_vec(99, 2),
        Err(Error::OutOfBounds { .. })
    ));
    assert!(matches!(
        pages.read_vec(500, 0),
        Err(Error::OutOfBounds { .. })
    ));
    assert!(pages.missing(100, 5).is_empty());
    assert_eq!(pages.missing(95, u64::MAX), vec![5, 6]);
    assert!(Pages::new(100, 0).missing(0, 10).is_empty());
    assert!(matches!(
        Pages::new(100, 0).read_vec(0, 10),
        Err(Error::Incomplete)
    ));
}

/// A short page holds what it holds, and no more.
#[test]
fn a_short_page_is_not_padded() {
    let mut pages = Pages::new(100, 16);
    pages.insert(0, vec![1, 2, 3]);
    assert_eq!(pages.read_vec(0, 3).unwrap(), vec![1, 2, 3]);
    assert!(matches!(pages.read_vec(2, 2), Err(Error::Incomplete)));
}

/// The driver of an asynchronous open: run, fetch what was missing, run again.
#[test]
fn fetching_what_is_missing_ends_in_the_same_answer() {
    let mut bytes = vec![0u8; 2048];
    bytes.extend_from_slice(&HDF5_SIGNATURE);
    bytes.extend_from_slice(&[9; 200]);
    let want = Superblock::read(&MemorySource::new(bytes.clone())).unwrap_err();

    let mut pages = Pages::new(bytes.len() as u64, 64);
    let mut rounds = 0;
    let got = loop {
        rounds += 1;
        match Superblock::read(&pages) {
            Err(Error::Incomplete) => {
                // The parser looks for the signature at zero and at doubling
                // offsets from 512 on.
                let offset = [0u64, 512, 1024, 2048]
                    .into_iter()
                    .find(|o| !pages.missing(*o, 100).is_empty())
                    .unwrap();
                for n in pages.missing(offset, 100) {
                    let p = page(&bytes, n, 64);
                    pages.insert(n, p);
                }
            }
            other => break other.unwrap_err(),
        }
    };
    assert_eq!(got.to_string(), want.to_string());
    assert!(rounds > 1);
}

#[test]
fn a_shared_source_reads_through_its_pointer() {
    let src = Arc::new(MemorySource::new(b"CDF\x01 and more".to_vec()));
    assert_eq!(detect_container(src.as_ref()).unwrap(), Container::Cdf1);
    assert_eq!(
        src.read_ranges(&[(0, 3), (5, 3)]).unwrap(),
        vec![b"CDF".to_vec(), b"and".to_vec()]
    );
    assert!(src.read_ranges(&[(0, 3), (50, 3)]).is_err());
    let mut buf = [0u8; 4];
    src.read_exact_at(9, &mut buf).unwrap();
    assert_eq!(&buf, b"more");
}

#[test]
fn the_pages_that_several_reads_lack_are_named_once() {
    let bytes = file();
    let mut pages = Pages::new(100, 16);
    pages.insert(2, page(&bytes, 2, 16));
    assert_eq!(
        pages.missing_in(&[(90, 50), (10, 30), (0, 4), (95, 1), (500, 3)]),
        vec![0, 1, 5, 6]
    );
    assert_eq!(pages.missing_in(&[(32, 16)]), Vec::<u64>::new());
    assert_eq!(pages.missing_in(&[]), Vec::<u64>::new());
}

#[test]
fn the_last_page_ends_with_the_file() {
    let pages = Pages::new(100, 16);
    assert_eq!(pages.range_of(0), Some((0, 16)));
    assert_eq!(pages.range_of(5), Some((80, 16)));
    assert_eq!(pages.range_of(6), Some((96, 4)));
    assert_eq!(pages.range_of(7), None);
    assert_eq!(pages.range_of(u64::MAX), None);
    assert_eq!(Pages::new(100, 0).range_of(0), None);
    assert_eq!(Pages::new(96, 16).range_of(6), None);
}
