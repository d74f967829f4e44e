//! Storage that fails: what needs no read is answered all the same.

use std::sync::Arc;

use oxcdf::btree1::ChunkRecord;
use oxcdf::chunk_index;
use oxcdf::chunks::chunks_of;
use oxcdf::classic::ClassicFile;
use oxcdf::container::detect_container;
use oxcdf::context::Ctx;
use oxcdf::cursor::Sizes;
use oxcdf::dataset::{resolve_vlen_sequences, resolve_vlen_strings};
use oxcdf::index::{DatasetIndex, GroupIndex, Hdf5File};
use oxcdf::message::attribute::Attribute;
use oxcdf::message::dataspace::{Dataspace, DataspaceKind};
use oxcdf::message::datatype::{
    ByteOrder, CharSet, Datatype, DatatypeClass, StringPad, VlenKind,
};
use oxcdf::message::fillvalue::FillValue;
use oxcdf::message::filter::FilterPipeline;
use oxcdf::message::layout::{ChunkIndex, Layout};
use oxcdf::read::RawData;
use oxcdf::source::Image;
use oxcdf::superblock::{RootGroup, Superblock};
use oxcdf::{
    AttributeValue, ByteSource, Error, Extent, Extents, Hyperslab, MemorySource, NetcdfFile, Result,
};

/// A source of `size` bytes, none of which can be read.
#[derive(Debug)]
struct Failing {
    size: u64,
}

impl ByteSource for Failing {
    fn image(&self) -> Image {
        unreachable!("proofs speak of this, and no program calls it")
    }

    fn dependable(&self) -> bool {
        false
    }

    fn label(&self) -> &'static str {
        "failing"
    }

    fn size(&self) -> u64 {
        self.size
    }

    fn read_exact_at(&self, offset: u64, buf: &mut [u8]) -> Result<()> {
        if offset > self.size || buf.len() as u64 > self.size - offset {
            return Err(Error::OutOfBounds {
                what: "failing",
                offset,
                len: buf.len() as u64,
                available: self.size.saturating_sub(offset),
            });
        }
        Err(Error::Io("gone".to_string()))
    }
}

fn superblock() -> Superblock {
    Superblock {
        version: 2,
        sizes: Sizes::eight(),
        superblock_offset: 0,
        base_address: 0,
        end_of_file_address: 0,
        extension_address: None,
        root: RootGroup::ObjectHeader(48),
        group_internal_node_k: 0,
        group_leaf_node_k: 0,
        indexed_storage_internal_node_k: 32,
    }
}

fn integer(size: u32) -> Datatype {
    Datatype {
        version: 1,
        size,
        class: DatatypeClass::FixedPoint {
            order: ByteOrder::Little,
            signed: true,
            bit_offset: 0,
            bit_precision: (size * 8) as u16,
        },
    }
}

fn vlen(kind: VlenKind) -> Datatype {
    Datatype {
        version: 1,
        size: 16,
        class: DatatypeClass::VariableLength {
            kind,
            base: Box::new(integer(1)),
            pad: StringPad::NullTerminate,
            charset: CharSet::Ascii,
        },
    }
}

fn dataset(path: &str, shape: Vec<u64>, datatype: Datatype, layout: Layout) -> DatasetIndex {
    DatasetIndex {
        name: path[1..].to_string(),
        path: path.to_string(),
        address: 0,
        shape,
        max_shape: None,
        datatype,
        layout,
        pipeline: FilterPipeline::default(),
        fill_value: FillValue::default(),
        attributes: Vec::new(),
        attributes_complete: true,
    }
}

fn chunked(path: &str, address: Option<u64>, index: ChunkIndex) -> DatasetIndex {
    dataset(
        path,
        vec![4, 4],
        integer(4),
        Layout::Chunked {
            address,
            chunk_dims: vec![2, 2],
            element_size: 4,
            index,
        },
    )
}

fn descriptor(length: u32, collection: u64) -> Vec<u8> {
    let mut out = length.to_le_bytes().to_vec();
    out.extend_from_slice(&collection.to_le_bytes());
    out.extend_from_slice(&1u32.to_le_bytes());
    out
}

fn attribute(name: &str, datatype: Datatype, data: Vec<u8>) -> Attribute {
    Attribute {
        name: name.to_string(),
        datatype,
        dataspace: Dataspace {
            kind: DataspaceKind::Simple,
            dims: vec![1],
            max_dims: None,
        },
        data,
    }
}

fn file() -> NetcdfFile<Failing> {
    let stored = Layout::Contiguous {
        address: Some(96),
        size: 64,
    };
    let mut compact = Vec::new();
    for v in 0..16i32 {
        compact.extend_from_slice(&v.to_le_bytes());
    }
    let mut told = dataset("/told", vec![4, 4], integer(4), Layout::Compact { data: compact });
    told.attributes = vec![
        attribute("far", vlen(VlenKind::String), descriptor(3, 128)),
        attribute("empty", vlen(VlenKind::String), descriptor(0, 128)),
        attribute("number", integer(2), vec![7, 0]),
        attribute("rows", vlen(VlenKind::Sequence), descriptor(3, 128)),
    ];
    let root = GroupIndex {
        name: String::new(),
        path: "/".to_string(),
        datasets: vec![
            dataset("/stored", vec![4, 4], integer(4), stored),
            dataset(
                "/outside",
                vec![4, 4],
                integer(4),
                Layout::Contiguous {
                    address: Some(5000),
                    size: 64,
                },
            ),
            dataset(
                "/unwritten",
                vec![4, 4],
                integer(4),
                Layout::Contiguous {
                    address: None,
                    size: 64,
                },
            ),
            told,
            chunked("/no_chunks", None, ChunkIndex::FixedArray { page_bits: 10 }),
            chunked("/tree", Some(96), ChunkIndex::BtreeV1),
        ],
        groups: Vec::new(),
        attributes: Vec::new(),
    };
    NetcdfFile::from_hdf5(Hdf5File::new(
        Arc::new(Failing { size: 4096 }),
        superblock(),
        root,
    ))
    .unwrap()
}

fn all(n: usize) -> Extent {
    Extent::SliceEnd {
        start: 0,
        end: n,
        stride: 1,
    }
}

#[test]
fn a_refused_selection_is_refused_before_any_read() {
    let file = file();
    let v = file.variable("/stored").unwrap();
    let strided = Extents::Extent(vec![
        all(4),
        Extent::SliceEnd {
            start: 0,
            end: 4,
            stride: 2,
        },
    ]);
    let short = Extents::Extent(vec![all(4)]);
    let past = Extents::Extent(vec![all(4), all(5)]);
    let empty = Extents::Extent(vec![all(4), all(0)]);

    assert!(matches!(v.get_values::<i64>(&strided), Err(Error::Unsupported(_))));
    assert!(matches!(v.get_value::<i64>(&strided), Err(Error::Unsupported(_))));
    assert!(matches!(v.get::<i64>(&strided), Err(Error::Unsupported(_))));
    assert!(matches!(v.get_raw_values(&strided), Err(Error::Unsupported(_))));
    assert!(matches!(v.get_strings(&strided), Err(Error::Unsupported(_))));
    assert!(matches!(v.get_string(&strided), Err(Error::Unsupported(_))));
    assert!(matches!(v.get_values::<i64>(&short), Err(Error::BadRequest(_))));
    assert!(matches!(v.get_values::<i64>(&past), Err(Error::BadRequest(_))));
    assert_eq!(v.get_values::<i64>(&empty).unwrap(), Vec::<i64>::new());
    assert!(matches!(v.get_values::<i64>(&Extents::All), Err(Error::Io(_))));
}

#[test]
fn what_is_not_stored_in_the_file_is_read_all_the_same() {
    let file = file();
    let read = |path: &str| file.variable(path).unwrap().get_values::<i64>(&Extents::All);
    assert_eq!(read("/unwritten").unwrap(), vec![0; 16]);
    assert_eq!(read("/no_chunks").unwrap(), vec![0; 16]);
    assert_eq!(read("/told").unwrap(), (0..16).collect::<Vec<i64>>());
    // What lies past the end is refused by its range.
    assert!(matches!(read("/outside"), Err(Error::OutOfBounds { .. })));
    assert!(matches!(read("/tree"), Err(Error::Io(_))));
}

#[test]
fn a_chunk_index_without_a_read_gives_its_answer() {
    let source = Failing { size: 4096 };
    let sb = superblock();
    let ctx = Ctx::new(&source, &sb);
    let read = |index: ChunkIndex, address: Option<u64>| -> Result<Vec<ChunkRecord>> {
        chunk_index::read(ctx, &index, address, &[4, 4], &[2, 2], 4, false)
    };
    assert!(read(ChunkIndex::FixedArray { page_bits: 10 }, None).unwrap().is_empty());
    assert!(matches!(read(ChunkIndex::BtreeV1, Some(96)), Err(Error::Malformed(_))));
    let records = read(ChunkIndex::Implicit, Some(96)).unwrap();
    let addresses: Vec<u64> = records.iter().map(|r| r.address).collect();
    assert_eq!(addresses, vec![96, 112, 128, 144]);
    assert!(matches!(
        read(ChunkIndex::FixedArray { page_bits: 10 }, Some(96)),
        Err(Error::Io(_))
    ));
    assert!(matches!(
        read(ChunkIndex::FixedArray { page_bits: 10 }, Some(5000)),
        Err(Error::OutOfBounds { .. })
    ));

    let whole = dataset(
        "/d",
        vec![3],
        integer(4),
        Layout::Contiguous {
            address: Some(96),
            size: 12,
        },
    );
    assert_eq!(chunks_of(ctx, &whole).unwrap().len(), 1);
    assert!(chunks_of(ctx, &chunked("/c", None, ChunkIndex::BtreeV1)).unwrap().is_empty());
    assert!(matches!(
        chunks_of(ctx, &chunked("/c", Some(96), ChunkIndex::BtreeV1)),
        Err(Error::Io(_))
    ));
}

#[test]
fn a_string_that_cannot_be_read_keeps_its_own_bytes() {
    let file = file();
    let v = file.variable("/told").unwrap();
    let value = |name: &str| &v.attribute(name).unwrap().value;
    assert_eq!(*value("far"), AttributeValue::Raw(descriptor(3, 128)));
    assert_eq!(*value("empty"), AttributeValue::Strs(vec![String::new()]));
    assert_eq!(*value("number"), AttributeValue::Short(7));
    assert_eq!(*value("rows"), AttributeValue::Raw(descriptor(3, 128)));
}

#[test]
fn a_pointer_to_nothing_stored_is_followed_without_a_read() {
    let source = Failing { size: 4096 };
    let sb = superblock();
    let ctx = Ctx::new(&source, &sb);
    let raw = |bytes: Vec<u8>| RawData {
        bytes,
        element_size: 16,
        shape: vec![1],
    };
    let layout = || Layout::Compact { data: Vec::new() };
    let strings = dataset("/s", vec![1], vlen(VlenKind::String), layout());
    let rows = dataset("/r", vec![1], vlen(VlenKind::Sequence), layout());

    let none = raw(descriptor(0, 128));
    assert_eq!(resolve_vlen_strings(ctx, &strings, &none).unwrap(), vec![String::new()]);
    assert_eq!(resolve_vlen_sequences(ctx, &rows, &none).unwrap(), vec![Vec::<u8>::new()]);
    assert!(matches!(
        resolve_vlen_strings(ctx, &rows, &none),
        Err(Error::TypeMismatch { .. })
    ));
    assert!(matches!(
        resolve_vlen_sequences(ctx, &strings, &none),
        Err(Error::TypeMismatch { .. })
    ));
    assert!(matches!(
        resolve_vlen_strings(ctx, &strings, &raw(descriptor(3, 128))),
        Err(Error::Io(_))
    ));
    assert!(matches!(
        resolve_vlen_strings(ctx, &strings, &raw(descriptor(3, 5000))),
        Err(Error::OutOfBounds { .. })
    ));
}

/// A classic file of one variable of four integers at 80.
fn classic() -> ClassicFile<MemorySource> {
    let mut h = b"CDF\x01".to_vec();
    for n in [0u32, 0x0A, 1, 1] {
        h.extend_from_slice(&n.to_be_bytes());
    }
    h.extend_from_slice(b"x\0\0\0");
    for n in [4u32, 0, 0, 0x0B, 1, 1] {
        h.extend_from_slice(&n.to_be_bytes());
    }
    h.extend_from_slice(b"v\0\0\0");
    for n in [1u32, 0, 0, 0, 4, 16, 80] {
        h.extend_from_slice(&n.to_be_bytes());
    }
    h.resize(80, 0);
    for v in [1i32, 2, 3, 4] {
        h.extend_from_slice(&v.to_be_bytes());
    }
    ClassicFile::from_source(Arc::new(MemorySource::new(h))).unwrap()
}

#[test]
fn a_classic_read_is_refused_before_any_read() {
    let known = classic();
    assert_eq!(known.read(known.variable("v").unwrap()).unwrap().len(), 16);
    let file = ClassicFile {
        source: Arc::new(Failing { size: 96 }),
        container: known.container,
        dimensions: known.dimensions,
        attributes: known.attributes,
        variables: known.variables,
        record_count: known.record_count,
        record_stride: known.record_stride,
    };
    let v = file.variable("v").unwrap();
    let slab = |start: u64, count: u64| Hyperslab {
        start: vec![start],
        count: vec![count],
    };
    assert!(matches!(file.read_selection(v, &slab(2, 3)), Err(Error::BadRequest(_))));
    assert!(matches!(file.read_selection(v, &slab(0, 2)), Err(Error::Io(_))));
    assert!(matches!(file.read(v), Err(Error::Io(_))));
    assert!(matches!(file.read_f64(v), Err(Error::Io(_))));
    assert!(matches!(file.read_strings(v), Err(Error::Unsupported(_))));
    assert!(matches!(
        file.read_selection_with(&Failing { size: 90 }, v, &slab(0, 4)),
        Err(Error::OutOfBounds { .. })
    ));
}

#[test]
fn a_source_that_is_too_short_is_known_without_a_read() {
    assert!(matches!(
        detect_container(&Failing { size: 7 }),
        Err(Error::Malformed(_))
    ));
    assert!(matches!(detect_container(&Failing { size: 8 }), Err(Error::Io(_))));
    assert!(matches!(
        Superblock::read(&Failing { size: 7 }),
        Err(Error::Malformed(_))
    ));
    assert!(matches!(
        ClassicFile::from_source(Arc::new(Failing { size: 3 })).map(|_| ()),
        Err(Error::OutOfBounds { .. })
    ));
    let source = Failing { size: 10 };
    assert!(matches!(
        source.read_ranges(&[(8, 4), (0, 1)]),
        Err(Error::OutOfBounds { .. })
    ));
    assert!(matches!(source.read_ranges(&[(0, 4), (8, 4)]), Err(Error::Io(_))));
    assert!(source.read_ranges(&[]).unwrap().is_empty());
}
