//! Chunk indexes.

use oxcdf::chunk_index::{chunk_grid, chunk_offset, data_block_capacity, log2_exact};

#[test]
fn data_block_capacity_grows_with_the_super_block() {
    // Super blocks 0 and 1 hold one data block each; the run doubles every
    // other super block.
    assert_eq!(data_block_capacity(0, 16), 16);
    assert_eq!(data_block_capacity(1, 16), 32);
}

#[test]
fn log2_of_a_power_of_two_is_exact() {
    assert_eq!(log2_exact(16), 4);
    assert_eq!(log2_exact(1), 0);
    assert_eq!(log2_exact(1024), 10);
}

#[test]
fn the_chunk_grid_rounds_up() {
    assert_eq!(chunk_grid(&[40, 6], &[7, 4]), vec![6, 2]);
    assert_eq!(chunk_grid(&[40, 6], &[40, 6]), vec![1, 1]);
}

#[test]
fn chunk_offsets_walk_in_row_major_order() {
    let grid = [6u64, 2];
    let dims = [7u64, 4];
    assert_eq!(chunk_offset(0, &grid, &dims), vec![0, 0]);
    assert_eq!(chunk_offset(1, &grid, &dims), vec![0, 4]);
    assert_eq!(chunk_offset(2, &grid, &dims), vec![7, 0]);
    assert_eq!(chunk_offset(11, &grid, &dims), vec![35, 4]);
}
