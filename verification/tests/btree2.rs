//! The version 2 B-tree.

use oxcdf::btree2::{enc_size, NodeLayout};

#[test]
fn encoding_widths_follow_the_library_rule() {
    assert_eq!(enc_size(0), 1);
    assert_eq!(enc_size(1), 1);
    assert_eq!(enc_size(255), 1);
    assert_eq!(enc_size(256), 2);
    assert_eq!(enc_size(65535), 2);
    assert_eq!(enc_size(65536), 3);
}

#[test]
fn a_depth_zero_layout_only_needs_the_leaf_width() {
    let layout = NodeLayout::derive(512, 11, 0, 8);
    // (512 - 10) / 11 = 45 records, which fits in one byte.
    assert_eq!(layout.max_nrec_size, 1);
    assert_eq!(layout.cum_max_nrec_size.len(), 1);
}

#[test]
fn deeper_layouts_add_a_width_per_level() {
    let layout = NodeLayout::derive(4096, 17, 2, 8);
    assert_eq!(layout.cum_max_nrec_size.len(), 3);
    assert!(layout.cum_max_nrec_size[1] >= 1);
}
