//! Values in the global heap: strings and ragged arrays.

use std::sync::Arc;

use oxcdf::attributes::decode_value;
use oxcdf::cursor::Sizes;
use oxcdf::dataset::{read_hyperslab, resolve_vlen_sequences, resolve_vlen_strings};
use oxcdf::dtype::DType;
use oxcdf::heap::{GlobalHeap, HeapCache, VlenDescriptor};
use oxcdf::index::{DatasetIndex, GroupIndex, Hdf5File};
use oxcdf::message::datatype::{
    ByteOrder, CharSet, Datatype, DatatypeClass, StringPad, VlenKind,
};
use oxcdf::message::fillvalue::FillValue;
use oxcdf::message::filter::FilterPipeline;
use oxcdf::message::layout::Layout;
use oxcdf::superblock::{RootGroup, Superblock};
use oxcdf::{AttributeValue, Error, Extent, Extents, Hyperslab, MemorySource, NetcdfFile};

fn superblock() -> Superblock {
    Superblock {
        version: 2,
        sizes: Sizes::eight(),
        superblock_offset: 0,
        base_address: 0,
        end_of_file_address: 0,
        extension_address: None,
        root: RootGroup::ObjectHeader(48),
        group_internal_node_k: 0,
        group_leaf_node_k: 0,
        indexed_storage_internal_node_k: 32,
    }
}

fn number(size: u32, float: bool, order: ByteOrder) -> Datatype {
    let class = if float {
        DatatypeClass::FloatingPoint {
            order,
            bit_offset: 0,
            bit_precision: 32,
            exponent_location: 23,
            exponent_size: 8,
            mantissa_location: 0,
            mantissa_size: 23,
            exponent_bias: 127,
            sign_location: 31,
        }
    } else {
        DatatypeClass::FixedPoint {
            order,
            signed: true,
            bit_offset: 0,
            bit_precision: (size * 8) as u16,
        }
    };
    Datatype {
        version: 1,
        size,
        class,
    }
}

fn vlen(kind: VlenKind, base: Datatype) -> Datatype {
    Datatype {
        version: 1,
        size: 16,
        class: DatatypeClass::VariableLength {
            kind,
            base: Box::new(base),
            pad: StringPad::NullTerminate,
            charset: CharSet::Utf8,
        },
    }
}

/// A heap collection whose objects are numbered from one.
fn heap(objects: &[Vec<u8>]) -> Vec<u8> {
    let mut out = b"GCOL".to_vec();
    out.extend_from_slice(&[1, 0, 0, 0]);
    out.extend_from_slice(&4096u64.to_le_bytes());
    for (i, o) in objects.iter().enumerate() {
        out.extend_from_slice(&(i as u16 + 1).to_le_bytes());
        out.extend_from_slice(&[1, 0, 0, 0, 0, 0]);
        out.extend_from_slice(&(o.len() as u64).to_le_bytes());
        out.extend_from_slice(o);
        out.resize(out.len().div_ceil(8) * 8, 0);
    }
    out.resize(4096, 0);
    out
}

fn descriptor(length: u32, object: u32) -> Vec<u8> {
    let mut out = length.to_le_bytes().to_vec();
    out.extend_from_slice(&0u64.to_le_bytes());
    out.extend_from_slice(&object.to_le_bytes());
    out
}

fn dataset(path: &str, datatype: Datatype, rows: &[(u32, u32)]) -> DatasetIndex {
    let mut data = Vec::new();
    for (length, object) in rows {
        data.extend_from_slice(&descriptor(*length, *object));
    }
    DatasetIndex {
        name: path[1..].to_string(),
        path: path.to_string(),
        address: 0,
        shape: vec![rows.len() as u64],
        max_shape: None,
        datatype,
        layout: Layout::Compact { data },
        pipeline: FilterPipeline::default(),
        fill_value: FillValue::default(),
        attributes: Vec::new(),
        attributes_complete: true,
    }
}

fn floats(v: &[f32], big: bool) -> Vec<u8> {
    let mut out = Vec::new();
    for x in v {
        out.extend_from_slice(&if big { x.to_be_bytes() } else { x.to_le_bytes() });
    }
    out
}

fn open() -> Hdf5File<MemorySource> {
    let mut ints = Vec::new();
    for v in [1i32, 2, 3, 4, 5, 6, 7] {
        ints.extend_from_slice(&v.to_le_bytes());
    }
    let bytes = heap(&[
        floats(&[1.5, 2.5], false),
        floats(&[3.5, 4.5, 5.5], false),
        floats(&[-0.25], false),
        ints[..4].to_vec(),
        ints[4..12].to_vec(),
        ints[12..].to_vec(),
        b"Argo".to_vec(),
        b"\xC3\x85land\0".to_vec(),
        floats(&[7.5], true),
    ]);
    let datasets = vec![
        dataset(
            "/rows",
            vlen(VlenKind::Sequence, number(4, true, ByteOrder::Little)),
            &[(2, 1), (0, 0), (3, 2), (1, 3)],
        ),
        dataset(
            "/indices",
            vlen(VlenKind::Sequence, number(4, false, ByteOrder::Little)),
            &[(1, 4), (2, 5), (0, 0), (4, 6)],
        ),
        dataset(
            "/big",
            vlen(VlenKind::Sequence, number(4, true, ByteOrder::Big)),
            &[(1, 9)],
        ),
        dataset(
            "/station_name",
            vlen(VlenKind::String, number(1, false, ByteOrder::Little)),
            &[(4, 7), (0, 0), (7, 8)],
        ),
        dataset(
            "/lost",
            vlen(VlenKind::String, number(1, false, ByteOrder::Little)),
            &[(4, 77)],
        ),
        dataset(
            "/long",
            vlen(VlenKind::Sequence, number(4, true, ByteOrder::Little)),
            &[(9, 3)],
        ),
    ];
    let root = GroupIndex {
        name: String::new(),
        path: "/".to_string(),
        datasets,
        groups: Vec::new(),
        attributes: Vec::new(),
    };
    Hdf5File::new(Arc::new(MemorySource::new(bytes)), superblock(), root)
}

fn sequences(path: &str, slab: Option<Hyperslab>) -> Vec<Vec<u8>> {
    let file = open();
    let d = file.dataset(path).unwrap();
    let slab = slab.unwrap_or_else(|| Hyperslab::all(&d.shape));
    let raw = read_hyperslab(file.ctx(), d, &slab).unwrap();
    resolve_vlen_sequences(file.ctx(), d, &raw).unwrap()
}

fn as_f64(rows: Vec<Vec<u8>>) -> Vec<Vec<f64>> {
    rows.iter()
        .map(|r| {
            r.chunks_exact(4)
                .map(|b| f32::from_le_bytes(b.try_into().unwrap()) as f64)
                .collect()
        })
        .collect()
}

#[test]
fn reads_ragged_float_sequences() {
    let file = open();
    let d = file.dataset("/rows").expect("rows");
    assert_eq!(
        DType::of(&d.datatype),
        DType::Vlen(Box::new(DType::Float(4)))
    );
    assert_eq!(d.shape, vec![4]);
    assert_eq!(
        as_f64(sequences("/rows", None)),
        vec![vec![1.5, 2.5], vec![], vec![3.5, 4.5, 5.5], vec![-0.25]],
        "an empty sequence is a real value, not a missing one"
    );
    // Numbers come back with the least significant byte first.
    assert_eq!(as_f64(sequences("/big", None)), vec![vec![7.5]]);
}

#[test]
fn reads_ragged_integer_sequences() {
    let file = open();
    let d = file.dataset("/indices").unwrap();
    assert_eq!(DType::of(&d.datatype), DType::Vlen(Box::new(DType::Int(4))));

    let got: Vec<Vec<i64>> = sequences("/indices", None)
        .iter()
        .map(|r| {
            r.chunks_exact(4)
                .map(|b| i32::from_le_bytes(b.try_into().unwrap()) as i64)
                .collect()
        })
        .collect();
    assert_eq!(got, vec![vec![1], vec![2, 3], vec![], vec![4, 5, 6, 7]]);
}

#[test]
fn reads_a_slice_of_a_sequence_dataset() {
    let slab = Hyperslab {
        start: vec![2],
        count: vec![2],
    };
    assert_eq!(
        as_f64(sequences("/rows", Some(slab))),
        vec![vec![3.5, 4.5, 5.5], vec![-0.25]]
    );
}

#[test]
fn sequence_and_string_resolvers_do_not_mix() {
    let file = open();
    let rows = file.dataset("/rows").unwrap();
    let raw = read_hyperslab(file.ctx(), rows, &Hyperslab::all(&rows.shape)).unwrap();
    assert!(matches!(
        resolve_vlen_strings(file.ctx(), rows, &raw),
        Err(Error::TypeMismatch { .. })
    ));

    let names = file.dataset("/station_name").unwrap();
    let raw = read_hyperslab(file.ctx(), names, &Hyperslab::all(&names.shape)).unwrap();
    assert!(matches!(
        resolve_vlen_sequences(file.ctx(), names, &raw),
        Err(Error::TypeMismatch { .. })
    ));
    assert_eq!(
        resolve_vlen_strings(file.ctx(), names, &raw).unwrap(),
        vec!["Argo", "", "\u{C5}land"]
    );
}

#[test]
fn a_string_variable_reads_through_the_heap() {
    let file = NetcdfFile::from_hdf5(open()).unwrap();
    let v = file.variable("/station_name").unwrap();
    assert_eq!(v.vartype(), DType::String);
    assert_eq!(
        v.get_strings(&Extents::All).unwrap(),
        vec!["Argo", "", "\u{C5}land"]
    );
    assert_eq!(
        v.get_string(&Extents::Extent(vec![Extent::Index(2)])).unwrap(),
        "\u{C5}land"
    );
    assert!(matches!(
        v.get_values::<u64>(&Extents::All),
        Err(Error::TypeMismatch { .. })
    ));
    // A ragged row has no netCDF-style read.
    let rows = file.variable("/rows").unwrap();
    assert!(rows.get_strings(&Extents::All).is_err());
    assert_eq!(rows.get_raw_values(&Extents::All).unwrap().len(), 64);
}

#[test]
fn a_pointer_to_nothing_is_malformed() {
    let file = open();
    for path in ["/lost", "/long"] {
        let d = file.dataset(path).unwrap();
        let raw = read_hyperslab(file.ctx(), d, &Hyperslab::all(&d.shape)).unwrap();
        let err = if path == "/lost" {
            resolve_vlen_strings(file.ctx(), d, &raw).err().unwrap()
        } else {
            resolve_vlen_sequences(file.ctx(), d, &raw).err().unwrap()
        };
        assert!(matches!(err, Error::Malformed(_)), "got {err:?}");
    }
}

#[test]
fn a_heap_hands_out_its_objects() {
    let file = open();
    let heap = GlobalHeap::read(file.ctx(), 0).unwrap();
    assert_eq!(heap.object(7).unwrap().data, b"Argo".to_vec());
    assert!(heap.object(99).is_none());
    assert!(matches!(
        GlobalHeap::read(file.ctx(), 8),
        Err(Error::Malformed(_))
    ));

    let mut cache = HeapCache::new();
    assert!(cache.collection(0).is_none());
    cache.load(file.ctx(), 0).unwrap();
    assert!(cache.collection(0).is_some());

    let d = VlenDescriptor::parse(&descriptor(4, 7), Sizes::eight()).unwrap();
    assert_eq!(d.length, 4);
    assert_eq!(d.collection_address, 0);
    assert_eq!(d.object_index, 7);
    assert_eq!(VlenDescriptor::encoded_len(Sizes::eight()), 16);
}

#[test]
fn a_string_attribute_is_plural_even_with_one_value() {
    let t = vlen(VlenKind::String, number(1, false, ByteOrder::Little));
    assert_eq!(
        decode_value(&t, &descriptor(4, 7), Some(vec!["Argo".to_string()])),
        AttributeValue::Strs(vec!["Argo".to_string()])
    );
    // Without the strings the descriptors stay visible as they are.
    assert_eq!(
        decode_value(&t, &descriptor(4, 7), None),
        AttributeValue::Raw(descriptor(4, 7))
    );
}
