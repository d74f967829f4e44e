//! Version 2 B-trees.
//!
//! These index a fractal heap by name, mapping a record to a heap ID. This
//! reader needs them for exactly one reason: a heap that has internal free
//! space cannot be walked sequentially, because there is no way to tell a gap
//! from the end of the data. The B-tree lists every live record, so it can.
//!
//! netcdf-c creates that situation routinely: it rewrites `REFERENCE_LIST` in
//! place as more variables come to share a dimension, and the old record
//! becomes a hole.
//!
//! # Node sizing
//!
//! Internal nodes store a child's record count in a field whose width is
//! computed, not stored. The width depends on how many records a node at that
//! depth can hold, which depends on the width itself at the level below. So the
//! sizes have to be derived level by level from the leaf upwards, exactly as the
//! library does.

use vstd::prelude::*;
use vstd::slice::{slice_subrange, slice_to_vec};

use crate::bytes::same_bytes;
#[allow(unused_imports)]
use crate::bytes::{lemma_pow256_values, pow256};
use crate::checksum;
#[allow(unused_imports)]
use crate::checksum::metadata_checksum;
use crate::context::Ctx;
#[allow(unused_imports)]
use crate::context::CtxView;
use crate::cursor::Cursor;
#[allow(unused_imports)]
use crate::cursor::{
    address_at, length_at, skip_at, take_at, u16_at, u32_at, u8_at, uint_at, value_of, Parse,
    Sizes,
};
use crate::error::{Error, Result};
#[allow(unused_imports)]
use crate::error::{seen, ErrorView};
use crate::objheader::verify_checksum;
#[allow(unused_imports)]
use crate::objheader::checked;
#[allow(unused_imports)]
use crate::source::agrees;
use crate::source::ByteSource;
use crate::text::numbered;
#[allow(unused_imports)]
use crate::text::decimal;
#[allow(unused_imports)]
use crate::views::views;

verus! {

broadcast use crate::views::group_views;

/// Signature of a version 2 B-tree header, `BTHD`.
pub const BTHD_SIGNATURE: [u8; 4] = [0x42, 0x54, 0x48, 0x44];

/// Signature of a version 2 B-tree internal node, `BTIN`.
pub const BTIN_SIGNATURE: [u8; 4] = [0x42, 0x54, 0x49, 0x4e];

/// Signature of a version 2 B-tree leaf node, `BTLF`.
pub const BTLF_SIGNATURE: [u8; 4] = [0x42, 0x54, 0x4c, 0x46];

/// Bytes of prefix and checksum around a node's records.
pub const NODE_OVERHEAD: usize = 10;

/// Guard against a cyclic tree.
pub const MAX_NODES: usize = 0x10_0000;

/// A parsed version 2 B-tree, with every record already collected.
#[derive(Debug, Clone)]
pub struct BtreeV2 {
    /// The record type this tree indexes.
    pub record_type: u8,
    /// Width of one record in bytes.
    pub record_size: usize,
    /// Every record, as raw bytes.
    pub records: Vec<Vec<u8>>,
}

/// What a [`BtreeV2`] holds.
#[verifier::ext_equal]
pub struct BtreeV2View {
    pub record_type: u8,
    pub record_size: nat,
    pub records: Seq<Seq<u8>>,
}

impl View for BtreeV2 {
    type V = BtreeV2View;

    open spec fn view(&self) -> BtreeV2View {
        BtreeV2View {
            record_type: self.record_type,
            record_size: self.record_size as nat,
            records: views(self.records@),
        }
    }
}

/// The fewest bytes that can hold `value`, and at least one.
pub open spec fn encoded_width(value: u64) -> nat {
    if value < 0x100 {
        1
    } else if value < 0x1_0000 {
        2
    } else if value < 0x100_0000 {
        3
    } else if value < 0x1_0000_0000 {
        4
    } else if value < 0x100_0000_0000 {
        5
    } else if value < 0x1_0000_0000_0000 {
        6
    } else if value < 0x100_0000_0000_0000 {
        7
    } else {
        8
    }
}

/// Bytes needed to hold `value`, matching the library's own encoding rule.
pub fn enc_size(value: u64) -> (r: usize)
    ensures
        r == encoded_width(value),
{
    if value < 0x100 {
        1
    } else if value < 0x1_0000 {
        2
    } else if value < 0x100_0000 {
        3
    } else if value < 0x1_0000_0000 {
        4
    } else if value < 0x100_0000_0000 {
        5
    } else if value < 0x1_0000_0000_0000 {
        6
    } else if value < 0x100_0000_0000_0000 {
        7
    } else {
        8
    }
}

/// The width holds the value, and no smaller one does.
pub proof fn encoded_width_is_least(value: u64)
    ensures
        1 <= encoded_width(value) <= 8,
        value < pow256(encoded_width(value)),
        encoded_width(value) > 1 ==> value >= pow256((encoded_width(value) - 1) as nat),
{
    lemma_pow256_values();
}

/// How many records a leaf holds at most.
pub open spec fn leaf_capacity(node_size: nat, record_size: nat) -> nat {
    ((node_size - NODE_OVERHEAD) / record_size as int) as nat
}

/// Width of the "total number of records" field for children at depth `d`. A
/// pointer to a leaf has no such field.
pub open spec fn total_width(node_size: nat, record_size: nat, offset_size: nat, d: nat) -> nat
    decreases d, 3nat,
{
    if d == 0 {
        0
    } else {
        encoded_width(cumulative_capacity(node_size, record_size, offset_size, d))
    }
}

/// How many records a node at depth `d` holds itself at most.
pub open spec fn node_capacity(node_size: nat, record_size: nat, offset_size: nat, d: nat) -> nat
    decreases d, 1nat,
{
    if d == 0 {
        leaf_capacity(node_size, record_size)
    } else {
        let count_width = encoded_width(leaf_capacity(node_size, record_size) as u64);
        let pointer = offset_size + count_width + total_width(
            node_size,
            record_size,
            offset_size,
            (d - 1) as nat,
        );
        let room = node_size - NODE_OVERHEAD - count_width;
        if room < 0 {
            0
        } else {
            (room / (record_size + pointer) as int) as nat
        }
    }
}

/// How many records the subtree below a node at depth `d` holds at most, held
/// at the largest 64-bit value.
pub open spec fn cumulative_capacity(
    node_size: nat,
    record_size: nat,
    offset_size: nat,
    d: nat,
) -> u64
    decreases d, 2nat,
{
    if d == 0 {
        leaf_capacity(node_size, record_size) as u64
    } else {
        let max = node_capacity(node_size, record_size, offset_size, d);
        let below = cumulative_capacity(node_size, record_size, offset_size, (d - 1) as nat);
        let cum = (max + 1) * below + max;
        if cum > u64::MAX {
            u64::MAX
        } else {
            cum as u64
        }
    }
}

/// Per-depth field widths, derived from the leaf upwards.
#[derive(Debug)]
pub struct NodeLayout {
    /// Width of the "number of records" field in a child pointer.
    pub max_nrec_size: usize,
    /// Width of the "total number of records" field, per depth.
    pub cum_max_nrec_size: Vec<usize>,
}

/// The widths that a tree of a given depth uses.
#[verifier::ext_equal]
pub struct NodeLayoutView {
    pub max_nrec_size: nat,
    pub cum_max_nrec_size: Seq<nat>,
}

impl View for NodeLayout {
    type V = NodeLayoutView;

    open spec fn view(&self) -> NodeLayoutView {
        NodeLayoutView {
            max_nrec_size: self.max_nrec_size as nat,
            cum_max_nrec_size: Seq::new(
                self.cum_max_nrec_size@.len(),
                |i: int| self.cum_max_nrec_size@[i] as nat,
            ),
        }
    }
}

/// The widths for nodes of `node_size` bytes, from depth 0 to `depth`.
pub open spec fn node_layout(
    node_size: nat,
    record_size: nat,
    depth: nat,
    offset_size: nat,
) -> NodeLayoutView {
    NodeLayoutView {
        max_nrec_size: encoded_width(leaf_capacity(node_size, record_size) as u64),
        cum_max_nrec_size: Seq::new(
            depth + 1,
            |d: int| total_width(node_size, record_size, offset_size, d as nat),
        ),
    }
}

impl NodeLayout {
    /// Derive the widths of a tree.
    pub fn derive(node_size: usize, record_size: usize, depth: u16, offset_size: usize) -> (r: Self)
        requires
            node_size >= NODE_OVERHEAD,
            record_size > 0,
            record_size + offset_size + 16 <= usize::MAX,
        ensures
            r@ == node_layout(
                node_size as nat,
                record_size as nat,
                depth as nat,
                offset_size as nat,
            ),
            r.max_nrec_size <= 8,
            forall|i: int|
                0 <= i < r.cum_max_nrec_size@.len() ==> #[trigger] r.cum_max_nrec_size@[i] <= 8,
    {
        let ghost (n, s, o) = (node_size as nat, record_size as nat, offset_size as nat);
        // A leaf holds this many records at most.
        let leaf_max: usize = (node_size - NODE_OVERHEAD) / record_size;
        let max_nrec_size: usize = enc_size(leaf_max as u64);
        let mut cum: u64 = leaf_max as u64;
        let mut sizes: Vec<usize> = Vec::new();
        sizes.push(0);
        let mut d: usize = 0;
        while d < depth as usize
            invariant
                (n, s, o) == (node_size as nat, record_size as nat, offset_size as nat),
                node_size >= NODE_OVERHEAD,
                record_size > 0,
                record_size + offset_size + 16 <= usize::MAX,
                d <= depth,
                leaf_max == leaf_capacity(n, s),
                max_nrec_size == encoded_width(leaf_max as u64),
                cum == cumulative_capacity(n, s, o, d as nat),
                sizes@.len() == d + 1,
                forall|k: int|
                    0 <= k <= d ==> (#[trigger] sizes@[k]) as nat == total_width(n, s, o, k as nat)
                        && sizes@[k] <= 8,
            decreases depth - d,
        {
            proof {
                reveal_with_fuel(total_width, 2);
            }
            let pointer_size: usize = offset_size + max_nrec_size + sizes[d];
            let room: usize = if node_size < NODE_OVERHEAD + max_nrec_size {
                0
            } else {
                node_size - NODE_OVERHEAD - max_nrec_size
            };
            let max: usize = room / (record_size + pointer_size);
            proof {
                if node_size < NODE_OVERHEAD + max_nrec_size {
                    vstd::arithmetic::div_mod::lemma_basic_div(0, record_size + pointer_size);
                }
                assert(max == node_capacity(n, s, o, (d + 1) as nat));
                assert((max + 1) * cum <= 0x1_0000_0000_0000_0000 * 0x1_0000_0000_0000_0000)
                    by (nonlinear_arith)
                    requires
                        0 <= max + 1 <= 0x1_0000_0000_0000_0000,
                        0 <= cum <= 0x1_0000_0000_0000_0000,
                ;
                assert((max + 1) * cum <= 0xffff_ffff_ffff_ffff * 0x1_0000_0000_0000_0000)
                    by (nonlinear_arith)
                    requires
                        0 <= max + 1 <= 0x1_0000_0000_0000_0000,
                        0 <= cum <= 0xffff_ffff_ffff_ffff,
                ;
            }
            let wide: u128 = (max as u128 + 1) * cum as u128 + max as u128;
            cum = if wide > u64::MAX as u128 { u64::MAX } else { wide as u64 };
            sizes.push(enc_size(cum));
            d = d + 1;
        }
        let r = NodeLayout { max_nrec_size, cum_max_nrec_size: sizes };
        assert(r@ =~= node_layout(n, s, depth as nat, o));
        r
    }
}

/// What stays the same for every node of one tree.
pub struct TreeShape {
    pub record_size: nat,
    pub offset_size: u8,
    pub layout: NodeLayoutView,
}

/// Records collected and nodes read so far.
#[verifier::ext_equal]
pub struct Collected {
    pub records: Seq<Seq<u8>>,
    pub visited: nat,
}

/// `n` records of `size` bytes, read behind those in `out`.
pub open spec fn records_at(b: Seq<u8>, p: int, n: nat, size: nat, out: Seq<Seq<u8>>) -> Parse<
    Seq<Seq<u8>>,
>
    decreases n,
{
    if n == 0 {
        Ok((out, p))
    } else {
        match take_at(b, p, size as int) {
            Err(e) => Err(e),
            Ok((record, q)) => records_at(b, q, (n - 1) as nat, size, out.push(record)),
        }
    }
}

/// `n` child pointers, read behind those in `out`: an address, the number of
/// records in the child and, above the lowest level, a total that is skipped.
pub open spec fn pointers_at(
    b: Seq<u8>,
    p: int,
    n: nat,
    shape: TreeShape,
    total_size: nat,
    out: Seq<(u64, u64)>,
) -> Parse<Seq<(u64, u64)>>
    decreases n,
{
    if n == 0 {
        Ok((out, p))
    } else {
        match uint_at(b, p, shape.offset_size) { Err(e) => Err(e), Ok((address, p)) =>
        match uint_at(b, p, shape.layout.max_nrec_size as u8) { Err(e) => Err(e), Ok((count, p)) =>
        match skip_at(b, p, total_size as int) { Err(e) => Err(e), Ok((_, p)) =>
            pointers_at(b, p, (n - 1) as nat, shape, total_size, out.push((address, count)))
        }}}
    }
}

/// The prefix of a node: its signature, then its version and type. The block is
/// checked against its checksum before anything else of it is used.
pub open spec fn node_prefix(
    b: Seq<u8>,
    signature: Seq<u8>,
    no_signature: Seq<char>,
    what: Seq<char>,
) -> std::result::Result<(), ErrorView> {
    if b.take(4) != signature {
        Err(ErrorView::Malformed(no_signature))
    } else {
        checked(b, b.len() - 4, what)
    }
}

/// The records of a leaf, collected behind `out`.
pub open spec fn leaf_at(
    ctx: CtxView,
    address: u64,
    count: u64,
    shape: TreeShape,
    out: Collected,
) -> std::result::Result<Collected, ErrorView> {
    match ctx.fetch(address, NODE_OVERHEAD + count * shape.record_size) { Err(e) => Err(e), Ok(b) =>
    match node_prefix(
        b,
        BTLF_SIGNATURE@,
        "version 2 B-tree leaf is missing its BTLF signature"@,
        "version 2 B-tree leaf"@,
    ) { Err(e) => Err(e), Ok(_) =>
    match records_at(b, 6, count as nat, shape.record_size, out.records) { Err((e, _)) => Err(e), Ok((records, _)) =>
        Ok(Collected { records, visited: out.visited }) }}}
}

/// The width of the total field in pointers of a node at depth `depth`.
pub open spec fn pointer_total_size(shape: TreeShape, depth: nat) -> nat {
    if depth > 1 {
        shape.layout.cum_max_nrec_size[depth - 1]
    } else {
        0
    }
}

/// The records and child pointers of an internal node.
pub open spec fn internal_at(
    ctx: CtxView,
    address: u64,
    depth: nat,
    count: u64,
    shape: TreeShape,
) -> std::result::Result<(Seq<Seq<u8>>, Seq<(u64, u64)>), ErrorView> {
    let total_size = pointer_total_size(shape, depth);
    let pointer_size = shape.offset_size + shape.layout.max_nrec_size + total_size;
    match ctx.fetch(
        address,
        NODE_OVERHEAD + count * shape.record_size + (count + 1) * pointer_size,
    ) { Err(e) => Err(e), Ok(b) =>
    match node_prefix(
        b,
        BTIN_SIGNATURE@,
        "version 2 B-tree internal node is missing its BTIN signature"@,
        "version 2 B-tree internal node"@,
    ) { Err(e) => Err(e), Ok(_) =>
    match records_at(b, 6, count as nat, shape.record_size, Seq::empty()) { Err((e, _)) => Err(e), Ok((records, p)) =>
    match pointers_at(b, p, (count + 1) as nat, shape, total_size, Seq::empty()) { Err((e, _)) => Err(e), Ok((children, _)) =>
        Ok((records, children)) }}}}
}

/// Every record below the node at `address`, in order, collected behind `out`.
pub open spec fn collected(
    ctx: CtxView,
    address: u64,
    depth: nat,
    count: u64,
    shape: TreeShape,
    out: Collected,
) -> std::result::Result<Collected, ErrorView>
    decreases 2 * depth, 0nat,
{
    let out = Collected { records: out.records, visited: out.visited + 1 };
    if out.visited > MAX_NODES {
        Err(
            ErrorView::Malformed(
                "version 2 B-tree has implausibly many nodes; the file may be cyclic"@,
            ),
        )
    } else if depth == 0 {
        leaf_at(ctx, address, count, shape, out)
    } else {
        match internal_at(ctx, address, depth, count, shape) {
            Err(e) => Err(e),
            Ok((records, children)) => collected_below(
                ctx,
                (depth - 1) as nat,
                records,
                children,
                shape,
                out,
            ),
        }
    }
}

/// Every record below `children`, with `records` in between: child, record,
/// child, record, and so on to the last child.
pub open spec fn collected_below(
    ctx: CtxView,
    depth: nat,
    records: Seq<Seq<u8>>,
    children: Seq<(u64, u64)>,
    shape: TreeShape,
    out: Collected,
) -> std::result::Result<Collected, ErrorView>
    decreases 2 * depth + 1, children.len(),
{
    if children.len() == 0 {
        Ok(out)
    } else {
        match collected(ctx, children[0].0, depth, children[0].1, shape, out) {
            Err(e) => Err(e),
            Ok(more) => collected_below(
                ctx,
                depth,
                if records.len() > 0 {
                    records.skip(1)
                } else {
                    records
                },
                children.skip(1),
                shape,
                Collected {
                    records: if records.len() > 0 {
                        more.records.push(records[0])
                    } else {
                        more.records
                    },
                    visited: more.visited,
                },
            ),
        }
    }
}

/// What the header of a tree says.
pub struct TreeHeader {
    pub record_type: u8,
    pub node_size: u32,
    pub record_size: u16,
    pub depth: u16,
    pub root_address: Option<u64>,
    pub root_records: u16,
}

/// The header that `b` spells, checked against its checksum.
pub open spec fn tree_header(b: Seq<u8>, sizes: Sizes) -> Parse<TreeHeader> {
    match take_at(b, 0, 4) { Err(e) => Err(e), Ok((signature, p)) =>
    if signature != BTHD_SIGNATURE@ {
        Err((ErrorView::Malformed("version 2 B-tree header is missing its BTHD signature"@), p))
    } else {
        match u8_at(b, p) { Err(e) => Err(e), Ok((version, p)) =>
        if version != 0 {
            Err((ErrorView::Unsupported("version 2 B-tree header version "@ + decimal(version as nat)), p))
        } else {
            match u8_at(b, p) { Err(e) => Err(e), Ok((record_type, p)) =>
            match u32_at(b, p) { Err(e) => Err(e), Ok((node_size, p)) =>
            match u16_at(b, p) { Err(e) => Err(e), Ok((record_size, p)) =>
            match u16_at(b, p) { Err(e) => Err(e), Ok((depth, p)) =>
            match u8_at(b, p) { Err(e) => Err(e), Ok((_, p)) =>
            match u8_at(b, p) { Err(e) => Err(e), Ok((_, p)) =>
            match address_at(b, p, sizes) { Err(e) => Err(e), Ok((root_address, p)) =>
            match u16_at(b, p) { Err(e) => Err(e), Ok((root_records, p)) =>
            match length_at(b, p, sizes) { Err(e) => Err(e), Ok((_, p)) =>
            match u32_at(b, p) { Err(e) => Err(e), Ok((stored, q)) =>
                if stored != metadata_checksum(b.take(p)) {
                    Err((ErrorView::ChecksumMismatch {
                        what: "version 2 B-tree header"@,
                        stored,
                        computed: metadata_checksum(b.take(p)),
                    }, q))
                } else {
                    Ok((TreeHeader {
                        record_type, node_size, record_size, depth, root_address, root_records,
                    }, q))
                }
            }}}}}}}}}}
        }}
    }}
}

/// Whether reading the tree at an address reads anything: it starts inside the file.
pub open spec fn tree_reads(ctx: CtxView, address: u64) -> bool {
    let sizes = ctx.sizes();
    ctx.fetch_upto(address, 22 + sizes.offset + sizes.length) is Ok
}

/// The tree whose header is at `address`, with every record collected.
pub open spec fn tree_at(ctx: CtxView, address: u64) -> std::result::Result<
    BtreeV2View,
    ErrorView,
> {
    let sizes = ctx.sizes();
    match ctx.fetch_upto(address, 22 + sizes.offset + sizes.length) { Err(e) => Err(e), Ok(b) =>
    match tree_header(b, sizes) { Err((e, _)) => Err(e), Ok((h, _)) =>
    if h.record_size == 0 || h.node_size <= NODE_OVERHEAD {
        Err(ErrorView::Malformed("version 2 B-tree declares an impossible node or record size"@))
    } else {
        let shape = TreeShape {
            record_size: h.record_size as nat,
            offset_size: sizes.offset,
            layout: node_layout(
                h.node_size as nat,
                h.record_size as nat,
                h.depth as nat,
                sizes.offset as nat,
            ),
        };
        match h.root_address {
            None => Ok(BtreeV2View {
                record_type: h.record_type,
                record_size: h.record_size as nat,
                records: Seq::empty(),
            }),
            Some(root) => match collected(
                ctx,
                root,
                h.depth as nat,
                h.root_records as u64,
                shape,
                Collected { records: Seq::empty(), visited: 0 },
            ) { Err(e) => Err(e), Ok(all) => Ok(BtreeV2View {
                record_type: h.record_type,
                record_size: h.record_size as nat,
                records: all.records,
            }) },
        }
    }}}
}

impl BtreeV2 {
    /// Read the tree whose header is at `address` and collect every record.
    pub fn read<S: ByteSource + ?Sized>(ctx: Ctx<'_, S>, address: u64) -> (r: Result<Self>)
        ensures
            agrees(seen(r), tree_at(ctx@, address), ctx.dependable() || !tree_reads(ctx@, address)),
    {
        let sizes = ctx.sizes();
        let header_len: usize = 22 + sizes.offset as usize + sizes.length as usize;
        let buf = ctx.read_upto(address, header_len)?;
        let h = parse_header(buf.as_slice(), sizes)?;
        let record_size: usize = h.record_size as usize;
        let node_size: usize = h.node_size as usize;
        if record_size == 0 || node_size <= NODE_OVERHEAD {
            return Err(
                Error::malformed("version 2 B-tree declares an impossible node or record size"),
            );
        }
        let layout = NodeLayout::derive(node_size, record_size, h.depth, sizes.offset as usize);
        let mut records: Vec<Vec<u8>> = Vec::new();
        if let Some(root) = h.root_address {
            let mut visited: usize = 0;
            assert(layout@.cum_max_nrec_size.len() == h.depth + 1);
            let tree = Tree { record_size, offset_size: sizes.offset, layout };
            collect(ctx, root, h.depth, h.root_records as u64, &tree, &mut records, &mut visited)?;
        }
        Ok(BtreeV2 { record_type: h.record_type, record_size, records })
    }
}

fn parse_header(buf: &[u8], sizes: Sizes) -> (r: Result<TreeHeader>)
    ensures
        (match r {
            Ok(h) => Ok(h),
            Err(e) => Err(e@),
        }) == value_of(tree_header(buf@, sizes)),
{
    let mut cur = Cursor::new(buf);
    let sig = cur.take(4)?;
    if !same_bytes(sig, BTHD_SIGNATURE.as_slice()) {
        return Err(Error::malformed("version 2 B-tree header is missing its BTHD signature"));
    }
    let version: u8 = cur.u8()?;
    if version != 0 {
        return Err(
            Error::Unsupported(numbered("version 2 B-tree header version ", version as u64)),
        );
    }
    let record_type: u8 = cur.u8()?;
    let node_size: u32 = cur.u32()?;
    let record_size: u16 = cur.u16()?;
    let depth: u16 = cur.u16()?;
    let _split_percent: u8 = cur.u8()?;
    let _merge_percent: u8 = cur.u8()?;
    let root_address = cur.address(sizes)?;
    let root_records: u16 = cur.u16()?;
    let _total_records: u64 = cur.length(sizes)?;

    let checksum_pos: usize = cur.pos();
    let stored: u32 = cur.u32()?;
    let covered = slice_subrange(buf, 0, checksum_pos);
    assert(covered@ =~= buf@.take(checksum_pos as int));
    let computed: u32 = checksum::metadata(covered);
    if stored != computed {
        return Err(Error::ChecksumMismatch { what: "version 2 B-tree header", stored, computed });
    }
    Ok(TreeHeader { record_type, node_size, record_size, depth, root_address, root_records })
}

/// What stays the same for every node of the tree being read.
struct Tree {
    record_size: usize,
    offset_size: u8,
    layout: NodeLayout,
}

impl View for Tree {
    type V = TreeShape;

    closed spec fn view(&self) -> TreeShape {
        TreeShape {
            record_size: self.record_size as nat,
            offset_size: self.offset_size,
            layout: self.layout@,
        }
    }
}

impl Tree {
    /// The tree has widths for every depth up to `depth`, each of at most eight
    /// bytes, and records of at least one byte.
    spec fn serves(&self, depth: nat) -> bool {
        &&& 0 < self.record_size <= 0xffff
        &&& self.layout.max_nrec_size <= 8
        &&& self.layout.cum_max_nrec_size@.len() > depth
        &&& forall|i: int|
            0 <= i < self.layout.cum_max_nrec_size@.len()
                ==> #[trigger] self.layout.cum_max_nrec_size@[i] <= 8
    }
}

/// Records and visited nodes, as a [`Collected`].
spec fn so_far(records: Seq<Vec<u8>>, visited: usize) -> Collected {
    Collected { records: views(records), visited: visited as nat }
}

/// Read one node and, for an internal node, descend into its children.
fn collect<S: ByteSource + ?Sized>(
    ctx: Ctx<'_, S>,
    address: u64,
    depth: u16,
    record_count: u64,
    tree: &Tree,
    out: &mut Vec<Vec<u8>>,
    visited: &mut usize,
) -> (r: Result<()>)
    requires
        tree.serves(depth as nat),
        *old(visited) <= MAX_NODES,
    ensures
        agrees(
            match r {
                Ok(()) => Ok(so_far(final(out)@, *final(visited))),
                Err(e) => Err(e@),
            },
            collected(
                ctx@,
                address,
                depth as nat,
                record_count,
                tree@,
                so_far(old(out)@, *old(visited)),
            ),
            ctx.dependable(),
        ),
        r is Ok ==> *final(visited) <= MAX_NODES,
    decreases depth,
{
    *visited = *visited + 1;
    if *visited > MAX_NODES {
        return Err(
            Error::malformed("version 2 B-tree has implausibly many nodes; the file may be cyclic"),
        );
    }
    if depth == 0 {
        return collect_leaf(ctx, address, record_count, tree, out, Ghost(*visited as nat));
    }
    let (records, children) = read_internal(ctx, address, depth, record_count, tree)?;

    // In-order: child, record, child, record, ..., child.
    let ghost want = collected_below(
        ctx@,
        (depth - 1) as nat,
        views(records@),
        children@,
        tree@,
        so_far(out@, *visited),
    );
    let mut i: usize = 0;
    assert(views(records@).skip(0) =~= views(records@));
    assert(children@.skip(0) =~= children@);
    assert(records@.len() == 0 ==> views(records@) =~= Seq::empty());
    while i < children.len()
        invariant
            depth > 0,
            tree.serves(depth as nat),
            *visited <= MAX_NODES,
            i <= children@.len(),
            want == collected(
                ctx@,
                address,
                depth as nat,
                record_count,
                tree@,
                so_far(old(out)@, *old(visited)),
            ),
            want == collected_below(
                ctx@,
                (depth - 1) as nat,
                if i < records@.len() {
                    views(records@).skip(i as int)
                } else {
                    Seq::empty()
                },
                children@.skip(i as int),
                tree@,
                so_far(out@, *visited),
            ),
        decreases children@.len() - i,
    {
        let (child_address, child_records): (u64, u64) = children[i];
        proof {
            assert(children@.skip(i as int).skip(1) =~= children@.skip(i + 1));
            if i < records@.len() {
                assert(views(records@).skip(i as int).skip(1) =~= views(records@).skip(i + 1));
                assert(views(records@).skip(records@.len() as int) =~= Seq::empty());
            }
        }
        collect(ctx, child_address, depth - 1, child_records, tree, out, visited)?;
        if i < records.len() {
            out.push(slice_to_vec(records[i].as_slice()));
        }
        i = i + 1;
    }
    Ok(())
}

fn collect_leaf<S: ByteSource + ?Sized>(
    ctx: Ctx<'_, S>,
    address: u64,
    record_count: u64,
    tree: &Tree,
    out: &mut Vec<Vec<u8>>,
    Ghost(visited): Ghost<nat>,
) -> (r: Result<()>)
    requires
        0 < tree.record_size <= 0xffff,
    ensures
        agrees(
            match r {
                Ok(()) => Ok(Collected { records: views(final(out)@), visited }),
                Err(e) => Err(e@),
            },
            leaf_at(
                ctx@,
                address,
                record_count,
                tree@,
                (Collected { records: views(old(out)@), visited }),
            ),
            ctx.dependable(),
        ),
{
    // Leaf: a run of records between the prefix and the checksum.
    proof {
        assert(record_count * tree.record_size <= 0x1_0000_0000_0000_0000 * 0x1_0000)
            by (nonlinear_arith)
            requires
                record_count <= 0x1_0000_0000_0000_0000,
                tree.record_size <= 0x1_0000,
        ;
    }
    let len: u128 = NODE_OVERHEAD as u128 + record_count as u128 * tree.record_size as u128;
    let buf = ctx.read_wide(address, len)?;
    let mut cur = Cursor::new(buf.as_slice());
    let sig = cur.take(4)?;
    assert(sig@ =~= buf@.take(4));
    if !same_bytes(sig, BTLF_SIGNATURE.as_slice()) {
        return Err(Error::malformed("version 2 B-tree leaf is missing its BTLF signature"));
    }
    cur.skip(2)?;  // version and type
    verify_checksum(buf.as_slice(), buf.len() - 4, "version 2 B-tree leaf")?;
    read_records(&mut cur, record_count, tree.record_size, out)
}

fn read_records(cur: &mut Cursor<'_>, n: u64, size: usize, out: &mut Vec<Vec<u8>>) -> (r: Result<
    (),
>)
    ensures
        final(cur).moved(
            *old(cur),
            match r {
                Ok(()) => Ok(views(final(out)@)),
                Err(e) => Err(e@),
            },
            records_at(
                old(cur).buf@,
                old(cur).pos as int,
                n as nat,
                size as nat,
                views(old(out)@),
            ),
        ),
{
    let mut left: u64 = n;
    while left > 0
        invariant
            cur.buf == old(cur).buf,
            records_at(
                old(cur).buf@,
                old(cur).pos as int,
                n as nat,
                size as nat,
                views(old(out)@),
            ) == records_at(cur.buf@, cur.pos as int, left as nat, size as nat, views(out@)),
        decreases left,
    {
        let record = slice_to_vec(cur.take(size)?);
        out.push(record);
        left = left - 1;
    }
    Ok(())
}

fn read_internal<S: ByteSource + ?Sized>(
    ctx: Ctx<'_, S>,
    address: u64,
    depth: u16,
    record_count: u64,
    tree: &Tree,
) -> (r: Result<(Vec<Vec<u8>>, Vec<(u64, u64)>)>)
    requires
        depth > 0,
        tree.serves(depth as nat),
    ensures
        agrees(
            match r {
                Ok((records, children)) => Ok((views(records@), children@)),
                Err(e) => Err(e@),
            },
            internal_at(ctx@, address, depth as nat, record_count, tree@),
            ctx.dependable(),
        ),
{
    // Internal: records, then one more child pointer than records.
    let child_total_size: usize = if depth > 1 {
        tree.layout.cum_max_nrec_size[depth as usize - 1]
    } else {
        0
    };
    let pointer_size: usize = tree.offset_size as usize + tree.layout.max_nrec_size
        + child_total_size;
    proof {
        assert(record_count * tree.record_size <= 0x1_0000_0000_0000_0000 * 0x1_0000)
            by (nonlinear_arith)
            requires
                record_count <= 0x1_0000_0000_0000_0000,
                tree.record_size <= 0x1_0000,
        ;
        assert((record_count + 1) * pointer_size <= 0x1_0000_0000_0000_0000 * 0x1_0000)
            by (nonlinear_arith)
            requires
                record_count < 0x1_0000_0000_0000_0000,
                pointer_size <= 0x1_0000,
        ;
    }
    let count: u128 = record_count as u128;
    let len: u128 = NODE_OVERHEAD as u128 + count * tree.record_size as u128 + (count + 1)
        * pointer_size as u128;
    let buf = ctx.read_wide(address, len)?;
    let mut cur = Cursor::new(buf.as_slice());
    let sig = cur.take(4)?;
    assert(sig@ =~= buf@.take(4));
    if !same_bytes(sig, BTIN_SIGNATURE.as_slice()) {
        return Err(Error::malformed("version 2 B-tree internal node is missing its BTIN signature"));
    }
    cur.skip(2)?;  // version and type
    verify_checksum(buf.as_slice(), buf.len() - 4, "version 2 B-tree internal node")?;

    let mut records: Vec<Vec<u8>> = Vec::new();
    read_records(&mut cur, record_count, tree.record_size, &mut records)?;
    let children = read_pointers(&mut cur, record_count, tree, child_total_size)?;
    Ok((records, children))
}

/// Read one child pointer more than there are records.
fn read_pointers(cur: &mut Cursor<'_>, record_count: u64, tree: &Tree, total_size: usize) -> (r:
    Result<Vec<(u64, u64)>>)
    requires
        tree.layout.max_nrec_size <= 8,
    ensures
        final(cur).moved(
            *old(cur),
            seen(r),
            pointers_at(
                old(cur).buf@,
                old(cur).pos as int,
                (record_count + 1) as nat,
                tree@,
                total_size as nat,
                Seq::empty(),
            ),
        ),
{
    let mut out: Vec<(u64, u64)> = Vec::new();
    let mut left: u128 = record_count as u128 + 1;
    while left > 0
        invariant
            tree.layout.max_nrec_size <= 8,
            cur.buf == old(cur).buf,
            pointers_at(
                old(cur).buf@,
                old(cur).pos as int,
                (record_count + 1) as nat,
                tree@,
                total_size as nat,
                Seq::empty(),
            ) == pointers_at(
                cur.buf@,
                cur.pos as int,
                left as nat,
                tree@,
                total_size as nat,
                out@,
            ),
        decreases left,
    {
        let address: u64 = cur.uint(tree.offset_size)?;
        let count: u64 = cur.uint(tree.layout.max_nrec_size as u8)?;
        cur.skip(total_size)?;
        out.push((address, count));
        left = left - 1;
    }
    Ok(out)
}

} // verus!
