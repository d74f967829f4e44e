//! Names, errors and selections in words.

use oxcdf::names::find_named;
use oxcdf::read::{index_of, number_of};
use oxcdf::{
    AttributeValue, DType, Error, Extent, Extents, Hyperslab, NcAttribute,
};

#[test]
fn errors_read_as_sentences() {
    assert_eq!(
        Error::malformed("no header").to_string(),
        "malformed HDF5: no header"
    );
    assert_eq!(
        Error::unsupported("szip").to_string(),
        "unsupported HDF5 feature: szip"
    );
    assert_eq!(Error::not_found("x").to_string(), "not found: x");
    assert_eq!(Error::bad_request("y").to_string(), "bad request: y");
    assert_eq!(Error::Io("disk".to_string()).to_string(), "io error: disk");
    assert_eq!(
        Error::OutOfBounds {
            what: "buffer",
            offset: 7,
            len: 10,
            available: 3
        }
        .to_string(),
        "buffer read out of bounds: wanted 10 bytes at offset 7, but only 3 bytes are available"
    );
    assert_eq!(
        Error::ChecksumMismatch {
            what: "superblock",
            stored: 0xAB,
            computed: 0xFF00_0001
        }
        .to_string(),
        "superblock checksum mismatch: file stores 0x000000ab, computed 0xff000001"
    );
    let e = Error::TypeMismatch {
        stored: "f64".to_string(),
        asked: "string",
        what: "/t".to_string(),
    };
    assert!(e
        .to_string()
        .starts_with("type mismatch for /t: the variable stores f64, but string was asked for"));
    assert!(Error::Incomplete.to_string().contains("asynchronous"));
}

#[test]
fn only_a_missing_feature_is_worth_a_fallback() {
    assert!(Error::unsupported("szip").is_fallback_worthy());
    for e in [
        Error::malformed("x"),
        Error::not_found("x"),
        Error::bad_request("x"),
        Error::Incomplete,
        Error::Io("x".to_string()),
    ] {
        assert!(!e.is_fallback_worthy());
    }
}

#[test]
fn types_have_names() {
    for (t, name) in [
        (DType::Int(1), "i8"),
        (DType::Uint(8), "u64"),
        (DType::Float(4), "f32"),
        (DType::Int(3), "a 3-byte signed integer"),
        (DType::Float(2), "a 2-byte float"),
        (DType::Char, "char"),
        (DType::String, "string"),
        (DType::FixedString(8), "a 8-byte fixed string"),
        (
            DType::Vlen(Box::new(DType::Float(8))),
            "a ragged array of f64",
        ),
        (DType::Other, "a type this reader does not model"),
    ] {
        assert_eq!(t.name(), name);
    }
    assert!(DType::Char.is_text());
    assert!(!DType::Char.is_integer());
    assert!(DType::Uint(2).is_integer());
    assert_eq!(DType::FixedString(8).size(), Some(8));
    assert_eq!(DType::String.size(), None);
}

#[test]
fn the_first_of_a_name_is_found() {
    let items = vec![
        NcAttribute {
            name: "a".to_string(),
            value: AttributeValue::Int(1),
        },
        NcAttribute {
            name: "b".to_string(),
            value: AttributeValue::Int(2),
        },
        NcAttribute {
            name: "a".to_string(),
            value: AttributeValue::Int(3),
        },
    ];
    assert_eq!(
        find_named(&items, "a").unwrap().value,
        AttributeValue::Int(1)
    );
    assert!(find_named(&items, "c").is_none());
}

#[test]
fn selections_are_checked_against_the_shape() {
    assert!(Hyperslab::new(vec![0, 1], vec![2, 2], &[2, 3]).is_ok());
    assert!(matches!(
        Hyperslab::new(vec![0], vec![2], &[2, 3]),
        Err(Error::BadRequest(_))
    ));
    assert!(matches!(
        Hyperslab::new(vec![u64::MAX, 0], vec![1, 1], &[2, 3]),
        Err(Error::BadRequest(_))
    ));
    let all = Hyperslab::all(&[2, 3]);
    assert_eq!(all.start, vec![0, 0]);
    assert_eq!(all.element_count(), Some(6));
    let huge = Hyperslab {
        start: vec![0, 0],
        count: vec![u64::MAX, 2],
    };
    assert_eq!(huge.element_count(), None);
}

#[test]
fn elements_are_numbered_in_row_major_order() {
    let shape = [4u64, 3, 5];
    for k in 0..60 {
        let index = index_of(k, &shape);
        assert_eq!(index, vec![k / 15, k / 5 % 3, k % 5]);
        assert_eq!(number_of(&index, &shape), Some(k));
    }
    assert_eq!(number_of(&[u64::MAX, 1], &[u64::MAX, 2]), None);
}

#[test]
fn extents_become_blocks() {
    let shape = [8u64, 6];
    let block = |e: Vec<Extent>| Extents::Extent(e).to_hyperslab("/v", &shape);
    let b = block(vec![
        Extent::Slice {
            start: 5,
            stride: 1,
        },
        Extent::Index(2),
    ])
    .unwrap();
    assert_eq!((b.start, b.count), (vec![5, 2], vec![3, 1]));
    let b = block(vec![
        Extent::SliceCount {
            start: 1,
            count: 4,
            stride: 1,
        },
        (2..2).into(),
    ])
    .unwrap();
    assert_eq!((b.start, b.count), (vec![1, 2], vec![4, 0]));
    let b = Extents::All.to_hyperslab("/v", &shape).unwrap();
    assert_eq!((b.start, b.count), (vec![0, 0], vec![8, 6]));

    assert_eq!(
        block(vec![Extent::Index(0)]).unwrap_err().to_string(),
        "bad request: the selection on variable /v names 1 axes, but the variable has 2"
    );
    assert!(matches!(
        block(vec![Extent::Index(8), Extent::Index(0)]),
        Err(Error::BadRequest(_))
    ));
    assert!(matches!(
        block(vec![
            Extent::Slice {
                start: 9,
                stride: 1
            },
            Extent::Index(0)
        ]),
        Err(Error::BadRequest(_))
    ));
    assert!(matches!(
        block(vec![
            Extent::Index(0),
            Extent::SliceCount {
                start: 0,
                count: 1,
                stride: -1
            }
        ]),
        Err(Error::Unsupported(_))
    ));
}
