//! Where a dataset's values live: fill values, every kind of chunk index, and
//! storage that is damaged.

use std::sync::Arc;

use oxcdf::btree2::BtreeV2;
use oxcdf::checksum;
use oxcdf::chunks::chunks_of;
use oxcdf::cursor::Sizes;
use oxcdf::dataset::read_hyperslab;
use oxcdf::filters::verify_and_strip_fletcher32;
use oxcdf::index::{DatasetIndex, GroupIndex, Hdf5File};
use oxcdf::message::datatype::{ByteOrder, Datatype, DatatypeClass};
use oxcdf::message::fillvalue::FillValue;
use oxcdf::message::filter::{Filter, FilterPipeline};
use oxcdf::message::layout::{ChunkIndex, Layout};
use oxcdf::superblock::{RootGroup, Superblock};
use oxcdf::{Error, Hyperslab, MemorySource};

/// netCDF's default fill value for `int`, which is not zero.
const FILL_I32: i32 = -2147483647;
/// And for `short`.
const FILL_I16: i16 = -32767;

fn integer(size: u32) -> Datatype {
    Datatype {
        version: 1,
        size,
        class: DatatypeClass::FixedPoint {
            order: ByteOrder::Little,
            signed: true,
            bit_offset: 0,
            bit_precision: (size * 8) as u16,
        },
    }
}

fn superblock() -> Superblock {
    Superblock {
        version: 2,
        sizes: Sizes::eight(),
        superblock_offset: 0,
        base_address: 0,
        end_of_file_address: 0,
        extension_address: None,
        root: RootGroup::ObjectHeader(48),
        group_internal_node_k: 0,
        group_leaf_node_k: 0,
        indexed_storage_internal_node_k: 32,
    }
}

/// An 8x8 dataset in 4x4 chunks.
fn chunked(size: u32, fill: Vec<u8>, address: Option<u64>, index: ChunkIndex) -> DatasetIndex {
    DatasetIndex {
        name: "v".to_string(),
        path: "/v".to_string(),
        address: 0,
        shape: vec![8, 8],
        max_shape: None,
        datatype: integer(size),
        layout: Layout::Chunked {
            address,
            chunk_dims: vec![4, 4],
            element_size: size,
            index,
        },
        pipeline: FilterPipeline::default(),
        fill_value: FillValue { bytes: Some(fill) },
        attributes: Vec::new(),
        attributes_complete: true,
    }
}

fn open(bytes: Vec<u8>, d: DatasetIndex) -> Hdf5File<MemorySource> {
    let root = GroupIndex {
        name: String::new(),
        path: "/".to_string(),
        datasets: vec![d],
        groups: Vec::new(),
        attributes: Vec::new(),
    };
    Hdf5File::new(Arc::new(MemorySource::new(bytes)), superblock(), root)
}

fn read(file: &Hdf5File<MemorySource>, start: [u64; 2], count: [u64; 2]) -> Result<Vec<u8>, Error> {
    let d = file.dataset("/v").unwrap();
    let slab = Hyperslab::new(start.to_vec(), count.to_vec(), &d.shape)?;
    Ok(read_hyperslab(file.ctx(), d, &slab)?.bytes)
}

fn i32s(b: &[u8]) -> Vec<i32> {
    b.chunks_exact(4)
        .map(|c| i32::from_le_bytes(c.try_into().unwrap()))
        .collect()
}

fn i16s(b: &[u8]) -> Vec<i16> {
    b.chunks_exact(2)
        .map(|c| i16::from_le_bytes(c.try_into().unwrap()))
        .collect()
}

/// A version 1 B-tree leaf over chunks: offset, address and size.
fn tree(chunks: &[([u64; 2], u64, u32)]) -> Vec<u8> {
    let mut node = b"TREE".to_vec();
    node.extend_from_slice(&[1, 0]);
    node.extend_from_slice(&(chunks.len() as u16).to_le_bytes());
    node.extend_from_slice(&[0xFF; 16]);
    for (offset, at, size) in chunks {
        node.extend_from_slice(&size.to_le_bytes());
        node.extend_from_slice(&0u32.to_le_bytes());
        for o in offset {
            node.extend_from_slice(&o.to_le_bytes());
        }
        node.extend_from_slice(&0u64.to_le_bytes());
        node.extend_from_slice(&at.to_le_bytes());
    }
    node.extend_from_slice(&[0u8; 32]);
    node
}

/// `part`: the top-left 4x4 holds 0..16 and every other chunk is absent.
fn part() -> Hdf5File<MemorySource> {
    let mut bytes = vec![0u8; 64];
    for i in 0..16i32 {
        bytes.extend_from_slice(&i.to_le_bytes());
    }
    let at = bytes.len() as u64;
    bytes.extend_from_slice(&tree(&[([0, 0], 64, 64)]));
    open(
        bytes,
        chunked(
            4,
            FILL_I32.to_le_bytes().to_vec(),
            Some(at),
            ChunkIndex::BtreeV1,
        ),
    )
}

/// `rows`: the top four rows hold 0..32 and the bottom four are absent.
fn rows() -> Hdf5File<MemorySource> {
    let mut bytes = vec![0u8; 64];
    for half in 0..2i16 {
        for y in 0..4i16 {
            for x in 0..4i16 {
                bytes.extend_from_slice(&(y * 8 + half * 4 + x).to_le_bytes());
            }
        }
    }
    let at = bytes.len() as u64;
    bytes.extend_from_slice(&tree(&[([0, 0], 64, 32), ([0, 4], 96, 32)]));
    open(
        bytes,
        chunked(
            2,
            FILL_I16.to_le_bytes().to_vec(),
            Some(at),
            ChunkIndex::BtreeV1,
        ),
    )
}

#[test]
fn fill_values_absent_chunks_read_as_the_fill_value() {
    let mut want = vec![FILL_I32; 64];
    for y in 0..4 {
        for x in 0..4 {
            want[y * 8 + x] = (y * 4 + x) as i32;
        }
    }
    assert_eq!(i32s(&read(&part(), [0, 0], [8, 8]).unwrap()), want);
}

#[test]
fn fill_values_a_selection_inside_an_absent_chunk_is_all_fill_value() {
    assert_eq!(
        i32s(&read(&part(), [5, 5], [2, 2]).unwrap()),
        vec![FILL_I32; 4]
    );
}

#[test]
fn fill_values_a_selection_straddling_the_written_edge_holds_both() {
    let mut all = vec![FILL_I16; 64];
    for (i, v) in all.iter_mut().enumerate().take(32) {
        *v = i as i16;
    }
    assert_eq!(
        i16s(&read(&rows(), [2, 0], [4, 8]).unwrap()),
        all[2 * 8..6 * 8].to_vec()
    );
}

/// Four chunks of consecutive numbers at 64, each 64 bytes long.
fn whole() -> Vec<u8> {
    let mut bytes = vec![0u8; 64];
    for c in 0..4i32 {
        for y in 0..4i32 {
            for x in 0..4i32 {
                let v = (c / 2 * 4 + y) * 8 + (c % 2 * 4 + x);
                bytes.extend_from_slice(&v.to_le_bytes());
            }
        }
    }
    bytes
}

fn counted() -> Vec<i32> {
    (0..64).collect()
}

#[test]
fn a_fully_written_variable_never_shows_its_fill_value() {
    let file = open(
        whole(),
        chunked(4, vec![1; 4], Some(64), ChunkIndex::Implicit),
    );
    assert_eq!(i32s(&read(&file, [0, 0], [8, 8]).unwrap()), counted());
}

#[test]
fn a_dataset_that_was_never_written_is_all_fill_value() {
    for index in [ChunkIndex::BtreeV1, ChunkIndex::Implicit] {
        let file = open(
            Vec::new(),
            chunked(4, FILL_I32.to_le_bytes().to_vec(), None, index),
        );
        assert_eq!(
            i32s(&read(&file, [1, 1], [2, 3]).unwrap()),
            vec![FILL_I32; 6]
        );
    }
    let mut d = chunked(4, vec![9, 0, 0, 0], None, ChunkIndex::BtreeV1);
    d.layout = Layout::Contiguous {
        address: None,
        size: 0,
    };
    let file = open(Vec::new(), d);
    assert_eq!(i32s(&read(&file, [0, 0], [1, 2]).unwrap()), vec![9, 9]);
}

fn with_checksum(mut b: Vec<u8>) -> Vec<u8> {
    let sum = checksum::metadata(&b);
    b.extend_from_slice(&sum.to_le_bytes());
    b
}

#[test]
fn reads_a_single_chunk_index() {
    let mut d = chunked(
        4,
        vec![0; 4],
        Some(64),
        ChunkIndex::SingleChunk {
            filtered_size: 0,
            filter_mask: 0,
        },
    );
    d.shape = vec![3, 4];
    let file = open(whole(), d);
    assert_eq!(
        i32s(&read(&file, [0, 0], [3, 4]).unwrap()),
        vec![0, 1, 2, 3, 8, 9, 10, 11, 16, 17, 18, 19]
    );
}

#[test]
fn reads_a_fixed_array_index() {
    let mut bytes = whole();
    let block_at = bytes.len() as u64;
    let mut block = b"FADB".to_vec();
    block.extend_from_slice(&[0, 0]);
    block.extend_from_slice(&0u64.to_le_bytes());
    for c in 0..4u64 {
        // The third chunk was never written.
        let at = if c == 2 { u64::MAX } else { 64 + c * 64 };
        block.extend_from_slice(&at.to_le_bytes());
    }
    bytes.extend_from_slice(&with_checksum(block));
    let head_at = bytes.len() as u64;
    let mut head = b"FAHD".to_vec();
    head.extend_from_slice(&[0, 0, 8, 10]);
    head.extend_from_slice(&4u64.to_le_bytes());
    head.extend_from_slice(&block_at.to_le_bytes());
    bytes.extend_from_slice(&with_checksum(head));

    let d = chunked(
        4,
        vec![255; 4],
        Some(head_at),
        ChunkIndex::FixedArray { page_bits: 10 },
    );
    let file = open(bytes.clone(), d);
    let mut want = counted();
    for y in 4..8 {
        for x in 0..4 {
            want[y * 8 + x] = -1;
        }
    }
    assert_eq!(i32s(&read(&file, [0, 0], [8, 8]).unwrap()), want);
    assert_eq!(
        chunks_of(file.ctx(), file.dataset("/v").unwrap())
            .unwrap()
            .len(),
        3
    );

    // A flipped bit anywhere in the header is noticed.
    bytes[head_at as usize + 7] ^= 1;
    let d = chunked(
        4,
        vec![0; 4],
        Some(head_at),
        ChunkIndex::FixedArray { page_bits: 10 },
    );
    assert!(matches!(
        read(&open(bytes, d), [0, 0], [8, 8]),
        Err(Error::ChecksumMismatch { .. })
    ));
}

#[test]
fn reads_an_extensible_array_index() {
    let mut bytes = whole();
    let data_at = bytes.len() as u64;
    // The first data block holds the elements behind the two in the index block.
    let mut data = b"EADB".to_vec();
    data.extend_from_slice(&[0, 0]);
    data.extend_from_slice(&0u64.to_le_bytes());
    data.extend_from_slice(&[0; 4]);
    for c in [2u64, 3] {
        data.extend_from_slice(&(64 + c * 64).to_le_bytes());
    }
    bytes.extend_from_slice(&with_checksum(data));
    let index_at = bytes.len() as u64;
    let mut index = b"EAIB".to_vec();
    index.extend_from_slice(&[0, 0]);
    index.extend_from_slice(&0u64.to_le_bytes());
    for c in [0u64, 1] {
        index.extend_from_slice(&(64 + c * 64).to_le_bytes());
    }
    // Two data block addresses, then those of the super blocks: with 32 bits and
    // data blocks of two elements, 32 super blocks in all.
    index.extend_from_slice(&data_at.to_le_bytes());
    for _ in 0..33 {
        index.extend_from_slice(&[0xFF; 8]);
    }
    bytes.extend_from_slice(&with_checksum(index));
    let head_at = bytes.len() as u64;
    let mut head = b"EAHD".to_vec();
    head.extend_from_slice(&[0, 0, 8, 32, 2, 2, 4, 10]);
    for v in [0u64, 0, 1, 2, 4, 4] {
        head.extend_from_slice(&v.to_le_bytes());
    }
    head.extend_from_slice(&index_at.to_le_bytes());
    bytes.extend_from_slice(&with_checksum(head));

    let d = chunked(
        4,
        vec![0; 4],
        Some(head_at),
        ChunkIndex::ExtensibleArray {
            max_bits: 32,
            index_elements: 2,
            min_pointers: 4,
            min_elements: 2,
            page_bits: 10,
        },
    );
    let file = open(bytes, d);
    assert_eq!(i32s(&read(&file, [0, 0], [8, 8]).unwrap()), counted());
}

/// A version 2 B-tree over the four chunks, all in one leaf.
fn tree_v2(bytes: &mut Vec<u8>) -> u64 {
    let leaf_at = bytes.len() as u64;
    let mut leaf = b"BTLF".to_vec();
    leaf.extend_from_slice(&[0, 10]);
    for c in 0..4u64 {
        leaf.extend_from_slice(&(64 + c * 64).to_le_bytes());
        leaf.extend_from_slice(&(c / 2).to_le_bytes());
        leaf.extend_from_slice(&(c % 2).to_le_bytes());
    }
    bytes.extend_from_slice(&with_checksum(leaf));
    let head_at = bytes.len() as u64;
    let mut head = b"BTHD".to_vec();
    head.extend_from_slice(&[0, 10]);
    head.extend_from_slice(&512u32.to_le_bytes());
    head.extend_from_slice(&24u16.to_le_bytes());
    head.extend_from_slice(&0u16.to_le_bytes());
    head.extend_from_slice(&[100, 40]);
    head.extend_from_slice(&leaf_at.to_le_bytes());
    head.extend_from_slice(&4u16.to_le_bytes());
    head.extend_from_slice(&4u64.to_le_bytes());
    bytes.extend_from_slice(&with_checksum(head));
    head_at
}

#[test]
fn reads_a_version_two_btree_index() {
    let mut bytes = whole();
    let head_at = tree_v2(&mut bytes);
    let d = chunked(
        4,
        vec![0; 4],
        Some(head_at),
        ChunkIndex::BtreeV2 {
            node_size: 512,
            split_percent: 100,
            merge_percent: 40,
        },
    );
    let file = open(bytes, d);
    assert_eq!(i32s(&read(&file, [0, 0], [8, 8]).unwrap()), counted());
    assert_eq!(i32s(&read(&file, [3, 3], [2, 2]).unwrap()), vec![27, 28, 35, 36]);

    let t = BtreeV2::read(file.ctx(), head_at).unwrap();
    assert_eq!(t.record_type, 10);
    assert_eq!(t.record_size, 24);
    assert_eq!(t.records.len(), 4);
    assert!(matches!(
        BtreeV2::read(file.ctx(), 64),
        Err(Error::Malformed(_))
    ));
}

#[test]
fn a_chunk_that_decodes_short_is_malformed() {
    let mut bytes = vec![0u8; 128];
    let at = bytes.len() as u64;
    bytes.extend_from_slice(&tree(&[([0, 0], 64, 60)]));
    let file = open(
        bytes,
        chunked(4, vec![0; 4], Some(at), ChunkIndex::BtreeV1),
    );
    assert!(matches!(
        read(&file, [0, 0], [1, 1]),
        Err(Error::Malformed(_))
    ));
    // A selection that the chunk holds nothing of does not look at it.
    assert_eq!(i32s(&read(&file, [4, 4], [1, 1]).unwrap()), vec![0]);
}

#[test]
fn a_chunk_past_the_end_of_the_file_is_out_of_bounds() {
    let bytes = tree(&[([0, 0], 5000, 64)]);
    let file = open(bytes, chunked(4, vec![0; 4], Some(0), ChunkIndex::BtreeV1));
    assert!(matches!(
        read(&file, [0, 0], [8, 8]),
        Err(Error::OutOfBounds { .. })
    ));
}

#[test]
fn a_chunk_shape_of_another_rank_is_malformed() {
    let mut d = chunked(4, vec![0; 4], Some(64), ChunkIndex::Implicit);
    d.layout = Layout::Chunked {
        address: Some(64),
        chunk_dims: vec![4],
        element_size: 4,
        index: ChunkIndex::Implicit,
    };
    let file = open(whole(), d);
    assert!(matches!(
        read(&file, [0, 0], [1, 1]),
        Err(Error::Malformed(_))
    ));
}

#[test]
fn an_unknown_filter_makes_a_dataset_unreadable() {
    let mut d = chunked(4, vec![0; 4], Some(64), ChunkIndex::Implicit);
    d.pipeline = FilterPipeline {
        filters: vec![Filter {
            id: 32004,
            name: "lz4".to_string(),
            flags: 0,
            client_data: Vec::new(),
        }],
    };
    assert!(!d.is_readable());
    let file = open(whole(), d);
    let err = read(&file, [0, 0], [1, 1]).unwrap_err();
    assert!(err.is_fallback_worthy(), "got {err:?}");
}

#[test]
fn compact_storage_must_hold_the_whole_dataset() {
    let mut d = chunked(4, vec![0; 4], None, ChunkIndex::Implicit);
    d.shape = vec![2, 2];
    d.layout = Layout::Compact {
        data: (0..16).collect(),
    };
    let file = open(Vec::new(), d);
    assert_eq!(
        read(&file, [1, 0], [1, 2]).unwrap(),
        (8..16).collect::<Vec<u8>>()
    );

    let mut d = chunked(4, vec![0; 4], None, ChunkIndex::Implicit);
    d.shape = vec![2, 2];
    d.layout = Layout::Compact { data: vec![0; 15] };
    assert!(matches!(
        read(&open(Vec::new(), d), [1, 0], [1, 2]),
        Err(Error::Malformed(_))
    ));
}

#[test]
fn a_selection_larger_than_memory_is_a_bad_request() {
    let mut d = chunked(4, vec![0; 4], None, ChunkIndex::Implicit);
    d.shape = vec![u64::MAX, u64::MAX];
    let file = open(Vec::new(), d);
    assert!(matches!(
        read(&file, [0, 0], [u64::MAX, u64::MAX]),
        Err(Error::BadRequest(_))
    ));
    // An empty selection of it reads as nothing.
    assert!(read(&file, [0, 7], [0, 1]).unwrap().is_empty());
}

#[test]
fn a_checksummed_chunk_is_checked() {
    let data = vec![1u8, 2, 3, 4, 5];
    let mut stored = data.clone();
    stored.extend_from_slice(&checksum::fletcher32(&data).to_le_bytes());
    assert_eq!(verify_and_strip_fletcher32(stored.clone()).unwrap(), data);
    stored[0] ^= 1;
    assert!(matches!(
        verify_and_strip_fletcher32(stored),
        Err(Error::ChecksumMismatch { .. })
    ));
}
