//! Reads of a file whose contents are known exactly.
//!
//! Each dataset comes from a closed-form expression, so the tests compare
//! decoded values against arithmetic: contiguous and chunked storage, the
//! shuffle and deflate filters, big-endian floats, fixed-length strings, nested
//! groups, and selections that straddle chunk boundaries.

use std::io::Write;
use std::sync::Arc;

use oxcdf::btree1::{read_chunk_index, read_group_node_addresses};
use oxcdf::chunks::chunks_of;
use oxcdf::context::Ctx;
use oxcdf::cursor::Sizes;
use oxcdf::dataset::read_hyperslab;
use oxcdf::filters::shuffle;
use oxcdf::index::{DatasetIndex, GroupIndex, Hdf5File};
use oxcdf::message::attribute::Attribute;
use oxcdf::message::dataspace::{Dataspace, DataspaceKind};
use oxcdf::message::datatype::{ByteOrder, CharSet, Datatype, DatatypeClass, StringPad};
use oxcdf::message::fillvalue::FillValue;
use oxcdf::message::filter::{Filter, FilterPipeline};
use oxcdf::message::layout::{ChunkIndex, Layout};
use oxcdf::read::RawData;
use oxcdf::superblock::{RootGroup, Superblock};
use oxcdf::{
    AttributeValue, ByteSource, DType, Error, Extent, Extents, Hyperslab, MemorySource, NetcdfFile,
    Variable, F32, F64,
};

const NX: usize = 40;
const NY: usize = 6;

fn integer(size: u32, order: ByteOrder) -> Datatype {
    Datatype {
        version: 1,
        size,
        class: DatatypeClass::FixedPoint {
            order,
            signed: true,
            bit_offset: 0,
            bit_precision: (size * 8) as u16,
        },
    }
}

fn float(size: u32, order: ByteOrder) -> Datatype {
    Datatype {
        version: 1,
        size,
        class: DatatypeClass::FloatingPoint {
            order,
            bit_offset: 0,
            bit_precision: (size * 8) as u16,
            exponent_location: if size == 4 { 23 } else { 52 },
            exponent_size: if size == 4 { 8 } else { 11 },
            mantissa_location: 0,
            mantissa_size: if size == 4 { 23 } else { 52 },
            exponent_bias: if size == 4 { 127 } else { 1023 },
            sign_location: (size * 8 - 1) as u8,
        },
    }
}

fn text(size: u32) -> Datatype {
    Datatype {
        version: 1,
        size,
        class: DatatypeClass::String {
            pad: StringPad::NullTerminate,
            charset: CharSet::Ascii,
        },
    }
}

fn attribute(name: &str, datatype: Datatype, count: u64, data: Vec<u8>) -> Attribute {
    Attribute {
        name: name.to_string(),
        datatype,
        dataspace: Dataspace {
            kind: DataspaceKind::Simple,
            dims: vec![count],
            max_dims: None,
        },
        data,
    }
}

fn superblock() -> Superblock {
    Superblock {
        version: 0,
        sizes: Sizes::eight(),
        superblock_offset: 0,
        base_address: 0,
        end_of_file_address: 0,
        extension_address: None,
        root: RootGroup::ObjectHeader(96),
        group_internal_node_k: 16,
        group_leaf_node_k: 4,
        indexed_storage_internal_node_k: 32,
    }
}

fn dataset(path: &str, shape: Vec<u64>, datatype: Datatype, layout: Layout) -> DatasetIndex {
    let name = path.rsplit('/').next().unwrap().to_string();
    DatasetIndex {
        name,
        path: path.to_string(),
        address: 0,
        shape,
        max_shape: None,
        datatype,
        layout,
        pipeline: FilterPipeline::default(),
        fill_value: FillValue::default(),
        attributes: Vec::new(),
        attributes_complete: true,
    }
}

/// Append bytes to the file and say where they went.
fn put(file: &mut Vec<u8>, bytes: &[u8]) -> u64 {
    let at = file.len() as u64;
    file.extend_from_slice(bytes);
    at
}

fn deflate(data: &[u8]) -> Vec<u8> {
    let mut e = flate2::write::ZlibEncoder::new(Vec::new(), flate2::Compression::default());
    e.write_all(data).unwrap();
    e.finish().unwrap()
}

/// Write the chunks of `chunked_i32`, and a B-tree over them in reverse order.
fn chunked(file: &mut Vec<u8>) -> u64 {
    let mut records: Vec<(Vec<u64>, u64, u32)> = Vec::new();
    for cx in 0..6usize {
        for cy in 0..2usize {
            let mut raw = Vec::new();
            for x in 0..7 {
                for y in 0..4 {
                    let (gx, gy) = (cx * 7 + x, cy * 4 + y);
                    let v: i32 = if gx < NX && gy < NY {
                        (gx * NY + gy) as i32 * 3 - 100
                    } else {
                        0
                    };
                    raw.extend_from_slice(&v.to_le_bytes());
                }
            }
            let stored = deflate(&shuffle(&raw, 4));
            let at = put(file, &stored);
            records.push((vec![cx as u64 * 7, cy as u64 * 4], at, stored.len() as u32));
        }
    }
    records.reverse();
    let mut node = b"TREE".to_vec();
    node.extend_from_slice(&[1, 0]);
    node.extend_from_slice(&(records.len() as u16).to_le_bytes());
    node.extend_from_slice(&[0xFF; 16]);
    for (offset, at, size) in &records {
        node.extend_from_slice(&size.to_le_bytes());
        node.extend_from_slice(&0u32.to_le_bytes());
        for o in offset {
            node.extend_from_slice(&o.to_le_bytes());
        }
        node.extend_from_slice(&0u64.to_le_bytes());
        node.extend_from_slice(&at.to_le_bytes());
    }
    // The key behind the last child.
    node.extend_from_slice(&[0u8; 32]);
    put(file, &node)
}

/// A group B-tree with one symbol table node below it.
fn group_tree(file: &mut Vec<u8>) -> u64 {
    let mut snod = b"SNOD".to_vec();
    snod.extend_from_slice(&[1, 0, 0, 0]);
    let at = put(file, &snod);
    let mut node = b"TREE".to_vec();
    node.extend_from_slice(&[0, 0, 1, 0]);
    node.extend_from_slice(&[0xFF; 16]);
    node.extend_from_slice(&0u64.to_le_bytes());
    node.extend_from_slice(&at.to_le_bytes());
    node.extend_from_slice(&8u64.to_le_bytes());
    put(file, &node)
}

struct Fixture {
    file: Hdf5File<MemorySource>,
    chunk_tree: u64,
    group_tree: u64,
}

fn fixture() -> Fixture {
    let mut bytes = oxcdf::HDF5_SIGNATURE.to_vec();
    bytes.resize(256, 0);

    let mut raw = Vec::new();
    for i in 0..NX * NY {
        raw.extend_from_slice(&(i as f64 * 0.5).to_le_bytes());
    }
    let contig = put(&mut bytes, &raw);

    let mut raw = Vec::new();
    for i in 0..NX {
        raw.extend_from_slice(&(i as f32 * -1.25).to_be_bytes());
    }
    let big = put(&mut bytes, &raw);

    let mut raw = Vec::new();
    for s in ["alpha", "beta", "gamma", "delta", "epsilon"] {
        let mut b = s.as_bytes().to_vec();
        b.resize(8, 0);
        raw.extend_from_slice(&b);
    }
    let strings = put(&mut bytes, &raw);

    let mut raw = Vec::new();
    for i in 0..NY as i16 {
        raw.extend_from_slice(&(1000 + i).to_le_bytes());
    }
    let nested = put(&mut bytes, &raw);

    let chunk_tree = chunked(&mut bytes);
    let group_tree = group_tree(&mut bytes);

    let contiguous = |address: u64, size: u64| Layout::Contiguous {
        address: Some(address),
        size,
    };
    let mut contig_f64 = dataset(
        "/contig_f64",
        vec![40, 6],
        float(8, ByteOrder::Little),
        contiguous(contig, 1920),
    );
    let mut range = Vec::new();
    for v in [-1.0f64, 0.0, 1.0] {
        range.extend_from_slice(&v.to_le_bytes());
    }
    contig_f64.attributes.push(attribute(
        "valid_range",
        float(8, ByteOrder::Little),
        3,
        range,
    ));
    let mut chunked_i32 = dataset(
        "/chunked_i32",
        vec![40, 6],
        integer(4, ByteOrder::Little),
        Layout::Chunked {
            address: Some(chunk_tree),
            chunk_dims: vec![7, 4],
            element_size: 4,
            index: ChunkIndex::BtreeV1,
        },
    );
    chunked_i32.pipeline = FilterPipeline {
        filters: vec![
            Filter {
                id: 2,
                name: String::new(),
                flags: 0,
                client_data: vec![4],
            },
            Filter {
                id: 1,
                name: String::new(),
                flags: 0,
                client_data: vec![6],
            },
        ],
    };
    let root = GroupIndex {
        name: String::new(),
        path: "/".to_string(),
        datasets: vec![
            chunked_i32,
            dataset(
                "/contig_f32be",
                vec![40],
                float(4, ByteOrder::Big),
                contiguous(big, 160),
            ),
            contig_f64,
            dataset("/fixed_strings", vec![5], text(8), contiguous(strings, 40)),
        ],
        groups: vec![GroupIndex {
            name: "subgroup".to_string(),
            path: "/subgroup".to_string(),
            datasets: vec![dataset(
                "/subgroup/nested_i16",
                vec![6],
                integer(2, ByteOrder::Little),
                contiguous(nested, 12),
            )],
            groups: Vec::new(),
            attributes: Vec::new(),
        }],
        attributes: vec![attribute("title", text(14), 1, b"legacy fixture".to_vec())],
    };
    Fixture {
        file: Hdf5File::new(Arc::new(MemorySource::new(bytes)), superblock(), root),
        chunk_tree,
        group_tree,
    }
}

fn open() -> Hdf5File<MemorySource> {
    fixture().file
}

fn netcdf() -> NetcdfFile<MemorySource> {
    NetcdfFile::from_hdf5(open()).unwrap()
}

/// One extent for each axis, as ranges.
fn ranges(r: &[std::ops::Range<usize>]) -> Extents {
    Extents::Extent(r.iter().map(|r| Extent::from(r.clone())).collect())
}

fn as_f64(x: F64) -> f64 {
    f64::from_bits(x.bits)
}

fn floats(v: &Variable<'_, MemorySource>, e: &Extents) -> Vec<f64> {
    v.get_values::<F64>(e).unwrap().into_iter().map(as_f64).collect()
}

fn ints(v: &Variable<'_, MemorySource>, e: &Extents) -> Vec<i64> {
    v.get_values::<i64>(e).unwrap()
}

fn raw_f64(raw: &RawData) -> Vec<f64> {
    match raw.element_size {
        4 => raw
            .bytes
            .chunks_exact(4)
            .map(|b| f32::from_le_bytes(b.try_into().unwrap()) as f64)
            .collect(),
        _ => raw
            .bytes
            .chunks_exact(8)
            .map(|b| f64::from_le_bytes(b.try_into().unwrap()))
            .collect(),
    }
}

fn raw_i64(raw: &RawData) -> Vec<i64> {
    match raw.element_size {
        2 => raw
            .bytes
            .chunks_exact(2)
            .map(|b| i16::from_le_bytes(b.try_into().unwrap()) as i64)
            .collect(),
        _ => raw
            .bytes
            .chunks_exact(4)
            .map(|b| i32::from_le_bytes(b.try_into().unwrap()) as i64)
            .collect(),
    }
}

// ── the chunk index ────────────────────────────────────────────────────────

#[test]
fn reads_the_chunk_index_of_the_legacy_fixture() {
    let fx = fixture();
    let layout = &fx.file.dataset("/chunked_i32").unwrap().layout;
    let (address, chunk_dims) = match layout {
        Layout::Chunked {
            address,
            chunk_dims,
            ..
        } => (address.unwrap(), chunk_dims.clone()),
        other => panic!("expected a chunked layout, got {other:?}"),
    };
    assert_eq!(chunk_dims, vec![7, 4]);

    let chunks = read_chunk_index(fx.file.ctx(), address, chunk_dims.len()).unwrap();
    assert_eq!(
        chunks.len(),
        12,
        "a 40x6 dataset in 7x4 chunks is a 6x2 grid"
    );

    let mut seen: Vec<Vec<u64>> = chunks.iter().map(|c| c.offset.clone()).collect();
    seen.sort();
    seen.dedup();
    assert_eq!(seen.len(), 12, "every chunk offset must be distinct");

    for c in &chunks {
        assert_eq!(c.offset.len(), 2, "offsets drop the element-size axis");
        assert_eq!(c.offset[0] % 7, 0, "offset must sit on a chunk boundary");
        assert_eq!(c.offset[1] % 4, 0);
        assert!(c.offset[0] < 40 && c.offset[1] < 6);
        assert!(c.size > 0, "a written chunk has bytes");
        assert!(
            c.address > 0 && c.address < fx.file.source.size(),
            "chunk address must be inside the file"
        );
    }
}

#[test]
fn the_chunk_index_is_sorted_by_offset() {
    let fx = fixture();
    let chunks = read_chunk_index(fx.file.ctx(), fx.chunk_tree, 2).unwrap();
    let mut sorted = chunks.clone();
    sorted.sort_by(|a, b| a.offset.cmp(&b.offset));
    assert_eq!(chunks, sorted);
}

#[test]
fn walks_the_group_btree_of_the_legacy_fixture() {
    let fx = fixture();
    let nodes = read_group_node_addresses(fx.file.ctx(), fx.group_tree).unwrap();
    assert!(!nodes.is_empty(), "the root group has children");
    for addr in nodes {
        let buf = fx.file.source.read_vec(addr, 4).unwrap();
        assert_eq!(&buf, b"SNOD", "group B-tree leaves point at symbol tables");
    }
}

#[test]
fn rejects_a_node_without_a_signature() {
    let file = open();
    // Address 0 is the superblock, not a B-tree node.
    assert!(read_chunk_index(file.ctx(), 0, 2).is_err());
}

#[test]
fn a_chunk_tree_is_not_a_group_tree() {
    let fx = fixture();
    assert!(matches!(
        read_group_node_addresses(fx.file.ctx(), fx.chunk_tree),
        Err(Error::Malformed(_))
    ));
    assert!(matches!(
        read_chunk_index(fx.file.ctx(), fx.group_tree, 2),
        Err(Error::Malformed(_))
    ));
}

// ── whole reads and hyperslabs ─────────────────────────────────────────────

#[test]
fn reads_a_whole_contiguous_f64_dataset() {
    let file = open();
    let d = file.dataset("/contig_f64").unwrap();
    let raw = read_hyperslab(file.ctx(), d, &Hyperslab::all(&d.shape)).unwrap();
    let values = raw_f64(&raw);

    assert_eq!(values.len(), NX * NY);
    for (i, v) in values.iter().enumerate() {
        assert_eq!(*v, i as f64 * 0.5, "element {i}");
    }
}

#[test]
fn reads_a_whole_chunked_and_compressed_dataset() {
    let file = open();
    let d = file.dataset("/chunked_i32").unwrap();
    assert!(
        !d.pipeline.is_empty(),
        "this dataset is shuffled and deflated"
    );

    let raw = read_hyperslab(file.ctx(), d, &Hyperslab::all(&d.shape)).unwrap();
    let values = raw_i64(&raw);

    assert_eq!(values.len(), NX * NY);
    for (i, v) in values.iter().enumerate() {
        assert_eq!(*v, i as i64 * 3 - 100, "element {i}");
    }
}

#[test]
fn reads_a_hyperslab_that_straddles_chunk_boundaries() {
    let file = open();
    let d = file.dataset("/chunked_i32").unwrap();

    let slab = Hyperslab::new(vec![5, 2], vec![10, 3], &d.shape).unwrap();
    let raw = read_hyperslab(file.ctx(), d, &slab).unwrap();
    let values = raw_i64(&raw);

    assert_eq!(values.len(), 30);
    for row in 0..10usize {
        for col in 0..3usize {
            let global = (5 + row) * NY + (2 + col);
            assert_eq!(
                values[row * 3 + col],
                global as i64 * 3 - 100,
                "row {row} col {col}"
            );
        }
    }
}

#[test]
fn reads_a_hyperslab_of_a_contiguous_dataset() {
    let file = open();
    let d = file.dataset("/contig_f64").unwrap();

    let slab = Hyperslab::new(vec![37, 1], vec![3, 4], &d.shape).unwrap();
    let values = raw_f64(&read_hyperslab(file.ctx(), d, &slab).unwrap());

    assert_eq!(values.len(), 12);
    for row in 0..3usize {
        for col in 0..4usize {
            let global = (37 + row) * NY + (1 + col);
            assert_eq!(values[row * 4 + col], global as f64 * 0.5);
        }
    }
}

#[test]
fn reads_big_endian_floats_in_the_right_byte_order() {
    let file = open();
    let d = file.dataset("/contig_f32be").unwrap();
    assert_eq!(d.datatype.byte_order(), Some(ByteOrder::Big));

    let values = raw_f64(&read_hyperslab(file.ctx(), d, &Hyperslab::all(&d.shape)).unwrap());

    assert_eq!(values.len(), NX);
    for (i, v) in values.iter().enumerate() {
        assert_eq!(*v, i as f64 * -1.25, "element {i}");
    }
}

#[test]
fn reads_fixed_length_strings() {
    let file = netcdf();
    let v = file.variable("/fixed_strings").unwrap();
    assert_eq!(
        v.get_strings(&Extents::All).unwrap(),
        vec!["alpha", "beta", "gamma", "delta", "epsilon"]
    );
}

#[test]
fn reads_a_dataset_inside_a_subgroup() {
    let file = open();
    let d = file.dataset("/subgroup/nested_i16").unwrap();
    let values = raw_i64(&read_hyperslab(file.ctx(), d, &Hyperslab::all(&d.shape)).unwrap());
    assert_eq!(values, (0..NY as i64).map(|i| 1000 + i).collect::<Vec<_>>());
}

#[test]
fn reads_attribute_metadata() {
    let file = open();
    assert!(file.root().attribute("title").is_some());
    let d = file.dataset("/contig_f64").unwrap();
    assert_eq!(d.attribute("valid_range").unwrap().element_count(), 3);
}

#[test]
fn rejects_a_selection_outside_the_dataset() {
    let file = open();
    let d = file.dataset("/contig_f64").unwrap();
    let slab = Hyperslab {
        start: vec![39, 0],
        count: vec![5, 6],
    };
    assert!(matches!(
        read_hyperslab(file.ctx(), d, &slab),
        Err(Error::BadRequest(_))
    ));
}

// ── the chunk grid ─────────────────────────────────────────────────────────

/// The chunk shape a dataset was written with, or `None` when contiguous.
fn chunk_shape(file: &Hdf5File<MemorySource>, path: &str) -> Option<Vec<u64>> {
    match &file.dataset(path)?.layout {
        Layout::Chunked { chunk_dims, .. } => Some(chunk_dims.iter().map(|&d| d as u64).collect()),
        _ => None,
    }
}

#[test]
fn exposes_the_chunk_grid_and_reads_one_chunk_at_a_time() {
    let file = open();
    let d = file.dataset("/chunked_i32").unwrap();

    assert_eq!(chunk_shape(&file, "/chunked_i32"), Some(vec![7, 4]));

    let chunks = chunks_of(file.ctx(), d).unwrap();
    assert_eq!(chunks.len(), 12, "a 40x6 dataset in 7x4 chunks");

    let mut covered = 0u64;
    for chunk in &chunks {
        assert!(chunk.stored_size > 0, "a written chunk has bytes on disk");
        for axis in 0..2 {
            assert!(chunk.offset[axis] + chunk.shape[axis] <= d.shape[axis]);
        }
        let block = read_hyperslab(file.ctx(), d, &chunk.selection()).unwrap();
        assert_eq!(block.shape, chunk.shape);
        assert_eq!(
            (block.bytes.len() / block.element_size) as u64,
            chunk.element_count()
        );

        let values = raw_i64(&block);
        let global = chunk.offset[0] * 6 + chunk.offset[1];
        assert_eq!(values[0], global as i64 * 3 - 100);

        covered += chunk.element_count();
    }
    assert_eq!(covered, 240, "chunks must tile the dataset exactly");
    assert_eq!(covered, d.element_count());
}

#[test]
fn a_contiguous_dataset_reports_one_whole_chunk() {
    let file = open();
    let d = file.dataset("/contig_f64").unwrap();

    assert_eq!(chunk_shape(&file, "/contig_f64"), None, "not chunked");
    let chunks = chunks_of(file.ctx(), d).unwrap();
    assert_eq!(chunks.len(), 1, "callers get one uniform loop either way");
    assert_eq!(chunks[0].shape, vec![40, 6]);
    assert_eq!(chunks[0].offset, vec![0, 0]);
    assert_eq!(chunks[0].stored_size, 1920);

    let block = read_hyperslab(file.ctx(), d, &chunks[0].selection()).unwrap();
    assert_eq!(block.bytes.len() / block.element_size, 240);
}

#[test]
fn a_chunk_read_matches_the_equivalent_slice() {
    let file = open();
    let d = file.dataset("/chunked_i32").unwrap();
    let chunks = chunks_of(file.ctx(), d).unwrap();
    let total: u64 = chunks.iter().map(|c| c.element_count()).sum();
    assert_eq!(total, d.element_count());

    let chunk = &chunks[0];
    let from_chunk = read_hyperslab(file.ctx(), d, &chunk.selection()).unwrap();
    let slab = Hyperslab {
        start: chunk.offset.clone(),
        count: chunk.shape.clone(),
    };
    let from_slice = read_hyperslab(file.ctx(), d, &slab).unwrap();
    assert_eq!(from_chunk, from_slice);
}

#[test]
fn every_slice_agrees_with_the_whole() {
    let file = open();
    for path in ["/contig_f64", "/chunked_i32"] {
        let d = file.dataset(path).unwrap();
        let whole = read_hyperslab(file.ctx(), d, &Hyperslab::all(&d.shape)).unwrap();
        let w = whole.element_size;
        for (start, count) in [
            ([0u64, 0u64], [1u64, 1u64]),
            ([6, 3], [2, 2]),
            ([13, 0], [9, 6]),
            ([39, 5], [1, 1]),
            ([0, 2], [40, 1]),
        ] {
            let slab = Hyperslab::new(start.to_vec(), count.to_vec(), &d.shape).unwrap();
            let part = read_hyperslab(file.ctx(), d, &slab).unwrap();
            for x in 0..count[0] {
                for y in 0..count[1] {
                    let k = (x * count[1] + y) as usize;
                    let at = ((start[0] + x) * 6 + start[1] + y) as usize;
                    assert_eq!(
                        part.bytes[k * w..k * w + w],
                        whole.bytes[at * w..at * w + w],
                        "{path} at {x},{y}"
                    );
                }
            }
        }
    }
}

// ── the netCDF interface ───────────────────────────────────────────────────

#[test]
fn plain_hdf5_has_no_dimensions_and_all_datasets_are_variables() {
    let file = netcdf();

    assert!(file.root().dimensions.is_empty());
    assert_eq!(file.variables().len(), 5);

    let v = file.variable("/contig_f64").unwrap();
    assert_eq!(v.info().shape, vec![40, 6]);
    assert_eq!(v.info().dimensions, vec!["phony_dim_0", "phony_dim_1"]);
    assert!(!v.info().is_coordinate);
}

#[test]
fn reads_values_through_the_netcdf_layer() {
    let file = netcdf();
    let v = file.variable("/chunked_i32").unwrap();
    let values = ints(&v, &Extents::All);

    assert_eq!(values.len(), 240);
    assert_eq!(values[0], -100);
    assert_eq!(values[239], 239 * 3 - 100);
}

#[test]
fn navigates_variables_and_reports_their_types() {
    let file = netcdf();

    let v = file.variable("/contig_f64").unwrap();
    assert_eq!(v.info().name, "contig_f64");
    assert_eq!(v.info().shape, vec![40, 6]);
    assert_eq!(v.vartype(), DType::Float(8));
    assert!(v.vartype().is_float());
    assert_eq!(v.len(), 240);
    assert!(v.is_readable());

    assert_eq!(
        file.variable("/chunked_i32").unwrap().vartype(),
        DType::Int(4)
    );
    assert_eq!(
        file.variable("/fixed_strings").unwrap().vartype(),
        DType::FixedString(8)
    );
    assert!(file.variable("/nope").is_none());
}

#[test]
fn interface_reads_global_and_variable_attributes() {
    let file = netcdf();

    let title = file.attribute("title").expect("a global attribute");
    assert_eq!(title.value.as_text(), Some("legacy fixture"));

    let v = file.variable("/contig_f64").unwrap();
    let range = v.attribute("valid_range").expect("a variable attribute");
    assert_eq!(range.value.as_f64().map(as_f64), Some(-1.0));
}

#[test]
fn a_text_attribute_is_one_string() {
    let file = netcdf();
    let title = file.attribute("title").expect("a global attribute");
    assert!(
        matches!(&title.value, AttributeValue::Str(s) if s == "legacy fixture"),
        "a text attribute is one Str, not a list of characters: {:?}",
        title.value
    );
    assert_eq!(title.value.vartype(), DType::String);
    assert_eq!(title.value.len(), 1);
}

#[test]
fn reads_a_whole_variable() {
    let file = netcdf();
    let v = file.variable("/contig_f64").unwrap();

    assert_eq!(v.info().shape, vec![40, 6]);
    assert_eq!(v.len(), 240);
    let f = floats(&v, &Extents::All);
    assert_eq!(f.len(), 240);
    assert_eq!(f[0], 0.0);
    assert_eq!(f[239], 239.0 * 0.5);
}

#[test]
fn reads_a_slice_given_ranges_per_axis() {
    let file = netcdf();
    let v = file.variable("/chunked_i32").unwrap();

    let values = ints(&v, &ranges(&[5..15, 2..5]));
    assert_eq!(values.len(), 30);

    for row in 0..10usize {
        for col in 0..3usize {
            let global = (5 + row) * 6 + (2 + col);
            assert_eq!(values[row * 3 + col], global as i64 * 3 - 100);
        }
    }
}

#[test]
fn rejects_a_slice_of_the_wrong_rank_or_a_reversed_range() {
    let file = netcdf();
    let v = file.variable("/chunked_i32").unwrap();
    let (lo, hi) = (0usize, 4usize);

    assert!(
        matches!(
            v.get_values::<i64>(&ranges(&[lo..hi])),
            Err(Error::BadRequest(_))
        ),
        "rank must match"
    );
    assert!(
        matches!(
            v.get_values::<i64>(&ranges(&[hi..lo, lo..2])),
            Err(Error::BadRequest(_))
        ),
        "range must not reverse"
    );
    assert!(
        matches!(
            v.get_values::<i64>(&ranges(&[lo..99, lo..2])),
            Err(Error::BadRequest(_))
        ),
        "must stay in bounds"
    );
}

#[test]
fn reads_strings_and_nested_group_variables() {
    let file = netcdf();

    let s = file.variable("/fixed_strings").unwrap();
    assert_eq!(
        s.get_strings(&Extents::All).unwrap(),
        vec!["alpha", "beta", "gamma", "delta", "epsilon"]
    );

    let n = file.variable("/subgroup/nested_i16").unwrap();
    assert_eq!(
        ints(&n, &Extents::All),
        (1000..1006).collect::<Vec<_>>()
    );
    assert!(file.group("/subgroup").is_some());
    assert!(file.group("/").is_some());
}

// ── typed reads ────────────────────────────────────────────────────────────

#[test]
fn a_read_of_the_stored_type_copies_the_values() {
    let file = netcdf();
    let v = file.variable("/contig_f64").unwrap();
    assert_eq!(v.vartype(), DType::Float(8));
    let exact = v.get_values::<F64>(&Extents::All).unwrap();

    // The same bytes, reinterpreted. No conversion can have happened.
    let bytes = v.get_raw_values(&Extents::All).unwrap();
    assert_eq!(exact.len(), 240);
    for (i, v) in exact.iter().enumerate() {
        let b: [u8; 8] = bytes[i * 8..i * 8 + 8].try_into().unwrap();
        assert_eq!(v.bits, f64::from_le_bytes(b).to_bits(), "element {i}");
    }
}

#[test]
fn an_f32_variable_reads_as_f32_without_a_round_trip_through_f64() {
    let file = netcdf();
    let v = file.variable("/contig_f32be").unwrap();
    assert_eq!(v.vartype(), DType::Float(4));

    let exact = v.get_values::<F32>(&Extents::All).unwrap();
    let raw = v.get_raw_values(&Extents::All).unwrap();
    assert_eq!(exact.len(), 40);
    for (i, got) in exact.iter().enumerate() {
        let b: [u8; 4] = raw[i * 4..i * 4 + 4].try_into().unwrap();
        assert_eq!(got.bits, f32::from_le_bytes(b).to_bits(), "element {i}");
    }
}

#[test]
fn an_i32_variable_reads_as_i32() {
    let file = netcdf();
    let v = file.variable("/chunked_i32").unwrap();
    assert_eq!(v.vartype(), DType::Int(4));

    let exact = v.get_values::<i32>(&Extents::All).unwrap();
    let wide = v.get_values::<i64>(&Extents::All).unwrap();
    assert_eq!(exact.len(), 240);
    assert_eq!(exact.len(), wide.len());
    for (a, b) in exact.iter().zip(&wide) {
        assert_eq!(i64::from(*a), *b);
    }
}

#[test]
fn any_numeric_type_converts_to_any_other() {
    let file = netcdf();
    let v = file.variable("/chunked_i32").unwrap();
    let all = Extents::All;
    let stored = v.get_values::<i32>(&all).unwrap();

    // Integer to float, integer to narrower integer, and back.
    let singles = v.get_values::<F32>(&all).unwrap();
    let doubles = v.get_values::<F64>(&all).unwrap();
    let narrow = v.get_values::<i16>(&all).unwrap();
    let bytes = v.get_values::<u8>(&all).unwrap();
    for (i, n) in stored.iter().enumerate() {
        assert_eq!(singles[i].bits, (*n as f32).to_bits());
        assert_eq!(doubles[i].bits, (*n as f64).to_bits());
        assert_eq!(narrow[i], *n as i16);
        assert_eq!(bytes[i], *n as u8);
    }

    let f = file.variable("/contig_f64").unwrap();
    assert!(f.get_values::<i64>(&all).is_ok(), "float to integer");
    assert!(
        f.get_values::<F32>(&all).is_ok(),
        "float to narrower float"
    );
}

#[test]
fn a_float_to_integer_read_truncates_toward_zero() {
    let file = netcdf();
    let v = file.variable("/contig_f64").unwrap();

    let floats = v.get_values::<F64>(&Extents::All).unwrap();
    let ints = v.get_values::<i64>(&Extents::All).unwrap();
    for (f, i) in floats.iter().zip(&ints) {
        let f = as_f64(*f);
        assert_eq!(*i, f as i64, "{f} should truncate to {i}");
    }
}

#[test]
fn a_string_variable_read_as_a_number_reports_the_stored_type() {
    let file = netcdf();
    let v = file.variable("/fixed_strings").unwrap();

    match v.get_values::<F64>(&Extents::All).unwrap_err() {
        Error::TypeMismatch { stored, asked, .. } => {
            assert!(stored.contains("string"), "stored was {stored}");
            assert_eq!(asked, "f64");
        }
        other => panic!("expected TypeMismatch, got {other:?}"),
    }
    // The message must name the stored type, so a caller can ask again.
    assert!(v
        .get_values::<F64>(&Extents::All)
        .unwrap_err()
        .to_string()
        .contains("string"));
    // And the reverse.
    let n = file.variable("/chunked_i32").unwrap();
    assert!(matches!(
        n.get_strings(&Extents::All),
        Err(Error::TypeMismatch { .. })
    ));
}

#[test]
fn every_selection_form_reads_the_same_elements() {
    let file = netcdf();
    let v = file.variable("/contig_f64").unwrap();
    assert_eq!(v.info().shape, vec![40, 6]);

    let all = floats(&v, &Extents::All);
    assert_eq!(floats(&v, &Extents::from(..)), all);
    assert_eq!(floats(&v, &Extents::from(())), all);
    assert_eq!(floats(&v, &ranges(&[0..40, 0..6])), all);
    assert_eq!(
        floats(&v, &Extents::from(vec![(0..).into(), (0..).into()])),
        all
    );

    // A block, two ways.
    let want = floats(&v, &ranges(&[2..5, 1..4]));
    assert_eq!(want.len(), 9);
    let counted = Extents::from_start_and_count(&[2, 1], &[3, 3]).unwrap();
    assert_eq!(floats(&v, &counted), want);
    assert!(matches!(
        Extents::from_start_and_count(&[2, 1], &[3]),
        Err(Error::BadRequest(_))
    ));

    // An index fixes an axis to one element.
    let row = floats(
        &v,
        &Extents::Extent(vec![Extent::Index(3), (0..6).into()]),
    );
    assert_eq!(row.len(), 6);
    assert_eq!(row, all[3 * 6..4 * 6]);

    // A range that starts at zero.
    assert_eq!(
        floats(&v, &Extents::from(vec![(..2).into(), (..6).into()])),
        all[..12]
    );
}

#[test]
fn get_value_reads_exactly_one_element() {
    let file = netcdf();
    let v = file.variable("/contig_f64").unwrap();
    let all = floats(&v, &Extents::All);
    let at = |x: usize, y: usize| Extents::Extent(vec![x.into(), y.into()]);

    assert_eq!(as_f64(v.get_value::<F64>(&at(0, 0)).unwrap()), all[0]);
    assert_eq!(as_f64(v.get_value::<F64>(&at(3, 2)).unwrap()), all[3 * 6 + 2]);

    // A selection naming more than one element is a bad request.
    let err = v.get_value::<F64>(&ranges(&[0..2, 0..2])).unwrap_err();
    assert!(matches!(&err, Error::BadRequest(_)), "got {err:?}");
    assert_eq!(
        err.to_string(),
        "bad request: the selection on variable /contig_f64 names 4 elements, but one was asked for"
    );

    let s = file.variable("/fixed_strings").unwrap();
    assert_eq!(
        s.get_string(&Extents::Extent(vec![Extent::Index(2)])).unwrap(),
        "gamma"
    );
    assert!(matches!(
        s.get_string(&Extents::All),
        Err(Error::BadRequest(_))
    ));
}

#[test]
fn a_selection_of_the_wrong_rank_or_past_the_end_is_reported() {
    let file = netcdf();
    let v = file.variable("/contig_f64").unwrap();

    assert!(
        v.get_values::<F64>(&ranges(&[0..2])).is_err(),
        "rank 1 on a rank-2 variable"
    );
    assert!(
        v.get_values::<F64>(&ranges(&[0..99, 0..6])).is_err(),
        "past the end"
    );
}

#[test]
fn a_stride_is_refused_rather_than_ignored() {
    let file = netcdf();
    let v = file.variable("/contig_f64").unwrap();

    let strided = Extents::Extent(vec![
        Extent::SliceEnd {
            start: 0,
            end: 40,
            stride: 2,
        },
        Extent::Index(0),
    ]);
    let err = v.get_values::<F64>(&strided).unwrap_err();
    assert!(matches!(&err, Error::Unsupported(_)), "got {err:?}");
    assert!(err.is_fallback_worthy());
}

#[test]
fn get_array_keeps_the_selection_shape() {
    let file = netcdf();
    let v = file.variable("/contig_f64").unwrap();

    let a = v.get::<F64>(&Extents::All).unwrap();
    assert_eq!(a.shape(), vec![40, 6]);
    let b = v.get::<F64>(&ranges(&[2..5, 1..4])).unwrap();
    assert_eq!(b.shape(), vec![3, 3]);
}

// ── arrays ─────────────────────────────────────────────────────────────────

#[test]
fn a_two_dimensional_variable_keeps_its_shape() {
    let file = netcdf();
    let a = file
        .variable("/contig_f64")
        .unwrap()
        .get::<F64>(&Extents::All)
        .unwrap();

    assert_eq!(a.shape(), vec![40, 6]);
    let at = |x: usize, y: usize| f64::from_bits(a.get(&[x, y]).unwrap());
    // Row-major: element (row, col) is row*6 + col in the flat order.
    assert_eq!(at(0, 0), 0.0);
    assert_eq!(at(0, 5), 2.5);
    assert_eq!(at(1, 0), 3.0);
    assert_eq!(at(39, 5), 239.0 * 0.5);
    assert_eq!(a.get(&[40, 0]), None);
    assert_eq!(a.get(&[0]), None);
}

#[test]
fn indexing_matches_the_flat_read() {
    let file = netcdf();
    let v = file.variable("/chunked_i32").unwrap();

    let flat = ints(&v, &Extents::All);
    let arr = v.get::<i64>(&Extents::All).unwrap();

    for row in 0..40 {
        for col in 0..6 {
            let bits = arr.get(&[row, col]).unwrap();
            assert_eq!(bits as i64, flat[row * 6 + col], "at {row},{col}");
        }
    }
}

#[test]
fn a_slice_yields_an_array_of_the_slice_shape() {
    let file = netcdf();
    let v = file.variable("/chunked_i32").unwrap();

    let a = v.get::<i64>(&ranges(&[5..15, 2..5])).unwrap();
    assert_eq!(a.shape(), vec![10, 3]);
    let at = |x: usize, y: usize| a.get(&[x, y]).unwrap() as i64;
    assert_eq!(at(0, 0), (5 * 6 + 2) * 3 - 100);
    assert_eq!(at(9, 2), (14 * 6 + 4) * 3 - 100);
}

#[test]
fn a_one_dimensional_variable_is_rank_one() {
    let file = netcdf();
    let a = file
        .variable("/subgroup/nested_i16")
        .unwrap()
        .get::<i64>(&Extents::All)
        .unwrap();
    assert_eq!(a.shape(), vec![6]);
    assert_eq!(a.get(&[0]), Some(1000));
}

#[test]
fn strings_come_back_flat_with_their_shape_alongside() {
    let file = netcdf();
    let v = file.variable("/fixed_strings").unwrap();
    let s = v.get_strings(&Extents::All).unwrap();
    assert_eq!(v.info().shape, vec![5]);
    assert_eq!(s.len(), 5);
    assert_eq!(s[0], "alpha");
    assert_eq!(s[4], "epsilon");
    assert!(matches!(
        v.get::<i64>(&Extents::All),
        Err(Error::TypeMismatch { .. })
    ));
}

#[test]
fn a_shape_mismatch_is_reported() {
    let file = netcdf();
    let a = file
        .variable("/contig_f32be")
        .unwrap()
        .get::<F32>(&Extents::All)
        .unwrap();
    assert_eq!(a.shape(), vec![40]);
    assert_eq!(a.get(&[39]).map(|b| f32::from_bits(b as u32)), Some(-48.75));

    let err = oxcdf::array::shape_into_array(&[2, 3], vec![1, 2, 3, 4, 5])
        .err()
        .unwrap();
    assert!(matches!(err, Error::Malformed(_)), "got {err:?}");
    let scalar = oxcdf::array::shape_into_array(&[], vec![9]).unwrap();
    assert_eq!(scalar.get(&[]), Some(9));
}

#[test]
fn a_context_reads_relative_to_the_base_address() {
    let file = open();
    let mut sb = superblock();
    sb.base_address = 8;
    let ctx = Ctx::new(file.source.as_ref(), &sb);
    assert_eq!(ctx.read(0, 4).unwrap(), vec![0, 0, 0, 0]);
    assert_eq!(file.ctx().read(1, 3).unwrap(), b"HDF".to_vec());
}
