//! Version 1 B-trees.
//!
//! One structure serves two unrelated purposes, distinguished by a node type
//! byte:
//!
//! * Type 0 indexes the children of an old-style group. Leaves point at symbol
//!   table nodes.
//! * Type 1 indexes the chunks of a chunked dataset. Leaves point at the raw
//!   chunk bytes, and each key carries the chunk's stored size, its filter mask
//!   and its position in the dataset.
//!
//! Type 1 is the important one. Walking it once produces the whole chunk index,
//! which is exactly the immutable structure that makes parallel reads possible:
//! afterwards every chunk is just a byte range that any thread may fetch.

use std::collections::HashSet;

use vstd::prelude::*;
use vstd::slice::slice_to_vec;

use crate::bytes::same_bytes;
use crate::context::Ctx;
#[allow(unused_imports)]
use crate::context::CtxView;
use crate::cursor::{Cursor, Sizes};
#[allow(unused_imports)]
use crate::cursor::{address_required_at, skip_at, u16_in, u32_at, u64_at, value_of, Parse};
use crate::error::{Error, Result};
#[allow(unused_imports)]
use crate::error::{seen, ErrorView};
use crate::ranking::ranking;
#[allow(unused_imports)]
use crate::ranking::{
    indices, is_ranking, key_less, key_views, lemma_key_less_irreflexive,
    lemma_key_less_transitive, lemma_ranking_unique, ranks_before,
};
#[allow(unused_imports)]
use crate::source::agrees;
use crate::source::ByteSource;
use crate::text::{add_text, numbered};
#[allow(unused_imports)]
use crate::text::decimal;
#[allow(unused_imports)]
use crate::views::views;

verus! {

broadcast use {crate::views::group_views, vstd::std_specs::hash::group_hash_axioms};

/// Signature of a version 1 B-tree node, `TREE`.
pub const TREE_SIGNATURE: [u8; 4] = [0x54, 0x52, 0x45, 0x45];

/// Guard against cycles in a damaged file.
pub const MAX_NODES: usize = 0x10_0000;

/// Node type 0: an old-style group.
pub const NODE_TYPE_GROUP: u8 = 0;

/// Node type 1: chunked dataset storage.
pub const NODE_TYPE_CHUNK: u8 = 1;

/// One chunk of a chunked dataset.
#[derive(Debug, Clone, PartialEq, Eq)]
pub struct ChunkRecord {
    /// Stored size in bytes, after filters.
    pub size: u32,
    /// Which filters were skipped for this chunk. A set bit means the filter at
    /// that position was not applied.
    pub filter_mask: u32,
    /// Position of the chunk's first element, in elements, per dimension.
    pub offset: Vec<u64>,
    /// Address of the chunk's bytes.
    pub address: u64,
}

/// What a [`ChunkRecord`] says.
#[verifier::ext_equal]
pub struct ChunkRecordView {
    pub size: u32,
    pub filter_mask: u32,
    pub offset: Seq<u64>,
    pub address: u64,
}

impl View for ChunkRecord {
    type V = ChunkRecordView;

    open spec fn view(&self) -> ChunkRecordView {
        ChunkRecordView {
            size: self.size,
            filter_mask: self.filter_mask,
            offset: self.offset@,
            address: self.address,
        }
    }
}

/// The offsets of records.
pub open spec fn offsets(records: Seq<ChunkRecordView>) -> Seq<Seq<u64>> {
    Seq::new(records.len(), |i: int| records[i].offset)
}

/// `out` is `records` in the order of their offsets. Records at one offset keep
/// the order in which they came.
pub open spec fn in_offset_order(
    records: Seq<ChunkRecordView>,
    out: Seq<ChunkRecordView>,
) -> bool {
    exists|order: Seq<int>|
        #![trigger is_ranking(offsets(records), order)]
        is_ranking(offsets(records), order) && out == Seq::new(
            records.len(),
            |i: int| records[order[i]],
        )
}

/// `r` lists the records of `want` in the order of their offsets, or fails as `want`
/// does. Where it is not `certain` that no read fails, the storage may have failed
/// instead.
pub open spec fn lists(
    r: Result<Vec<ChunkRecord>>,
    want: std::result::Result<Seq<ChunkRecordView>, ErrorView>,
    certain: bool,
) -> bool {
    match (r, want) {
        (Ok(records), Ok(found)) => in_offset_order(found, views(records@)),
        (Err(e), _) => agrees(Err(e@), want, certain),
        _ => false,
    }
}

impl ChunkRecord {
    fn duplicate(&self) -> (r: Self)
        ensures
            r@ == self@,
    {
        ChunkRecord {
            size: self.size,
            filter_mask: self.filter_mask,
            offset: slice_to_vec(self.offset.as_slice()),
            address: self.address,
        }
    }
}

/// Put records in the order of their offsets.
pub(crate) fn sort_records(records: Vec<ChunkRecord>) -> (r: Vec<ChunkRecord>)
    ensures
        in_offset_order(views(records@), views(r@)),
        r@.len() == records@.len(),
{
    let mut keys: Vec<&[u64]> = Vec::new();
    let mut i: usize = 0;
    while i < records.len()
        invariant
            i <= records@.len(),
            keys@.len() == i,
            forall|j: int| 0 <= j < i ==> (#[trigger] keys@[j])@ == records@[j].offset@,
        decreases records@.len() - i,
    {
        keys.push(records[i].offset.as_slice());
        i = i + 1;
    }
    assert(key_views(keys@) =~= offsets(views(records@)));
    let order = ranking(&keys);
    let ghost order_view = indices(order@);
    let mut out: Vec<ChunkRecord> = Vec::new();
    let mut i: usize = 0;
    while i < order.len()
        invariant
            i <= order@.len() == records@.len(),
            order_view == indices(order@),
            is_ranking(offsets(views(records@)), order_view),
            out@.len() == i,
            forall|j: int| 0 <= j < i ==> (#[trigger] out@[j])@ == views(records@)[order_view[j]],
        decreases order@.len() - i,
    {
        assert(order_view[i as int] == order@[i as int]);
        out.push(records[order[i]].duplicate());
        i = i + 1;
    }
    assert(views(out@) =~= Seq::new(
        views(records@).len(),
        |i: int| views(records@)[order_view[i]],
    ));
    out
}

/// What a chunk key says.
#[verifier::ext_equal]
pub struct ChunkKeyView {
    pub size: u32,
    pub filter_mask: u32,
    pub offset: Seq<u64>,
}

/// What a B-tree node says.
#[verifier::ext_equal]
pub struct NodeView {
    pub node_type: u8,
    pub level: u8,
    pub children: Seq<u64>,
    pub chunk_keys: Seq<ChunkKeyView>,
}

/// `n` eight-byte numbers, read behind those in `out`.
pub open spec fn u64s_at(b: Seq<u8>, p: int, n: nat, out: Seq<u64>) -> Parse<Seq<u64>>
    decreases n,
{
    if n == 0 {
        Ok((out, p))
    } else {
        match u64_at(b, p) {
            Err(e) => Err(e),
            Ok((d, q)) => u64s_at(b, q, (n - 1) as nat, out.push(d)),
        }
    }
}

/// A chunk key. Its last offset belongs to the element-size axis and is dropped.
pub open spec fn chunk_key_at(b: Seq<u8>, p: int, rank: nat) -> Parse<ChunkKeyView> {
    match u32_at(b, p) { Err(e) => Err(e), Ok((size, p)) =>
    match u32_at(b, p) { Err(e) => Err(e), Ok((filter_mask, p)) =>
    match u64s_at(b, p, rank, Seq::empty()) { Err(e) => Err(e), Ok((offset, p)) =>
    match skip_at(b, p, 8) { Err(e) => Err(e), Ok((_, p)) =>
        Ok((ChunkKeyView { size, filter_mask, offset }, p))
    }}}}
}

/// `n` entries of a group node, each a key and a child, read behind `children`.
pub open spec fn group_entries_at(
    b: Seq<u8>,
    p: int,
    n: nat,
    sizes: Sizes,
    children: Seq<u64>,
) -> Parse<Seq<u64>>
    decreases n,
{
    if n == 0 {
        Ok((children, p))
    } else {
        match skip_at(b, p, sizes.length as int) { Err(e) => Err(e), Ok((_, p)) =>
        match address_required_at(b, p, sizes, "B-tree child"@) { Err(e) => Err(e), Ok((child, p)) =>
            group_entries_at(b, p, (n - 1) as nat, sizes, children.push(child)) }}
    }
}

/// `n` entries of a chunk node, each a key and a child, read behind those given.
pub open spec fn chunk_entries_at(
    b: Seq<u8>,
    p: int,
    n: nat,
    sizes: Sizes,
    rank: nat,
    keys: Seq<ChunkKeyView>,
    children: Seq<u64>,
) -> Parse<(Seq<ChunkKeyView>, Seq<u64>)>
    decreases n,
{
    if n == 0 {
        Ok(((keys, children), p))
    } else {
        match chunk_key_at(b, p, rank) { Err(e) => Err(e), Ok((key, p)) =>
        match address_required_at(b, p, sizes, "B-tree child"@) { Err(e) => Err(e), Ok((child, p)) =>
            chunk_entries_at(b, p, (n - 1) as nat, sizes, rank, keys.push(key), children.push(child)) }}
    }
}

/// How many bytes a key takes in a node of a type.
pub open spec fn key_len(node_type: u8, sizes: Sizes, rank: nat) -> int {
    if node_type == NODE_TYPE_GROUP {
        sizes.length as int
    } else {
        (8 + 8 * (rank + 1)) as int
    }
}

/// Whether reading the node at an address reads anything: its header lies in the
/// file.
pub open spec fn node_reads(ctx: CtxView, address: u64) -> bool {
    ctx.fetch(address, 8 + 2 * ctx.sizes().offset) is Ok
}

/// The node at `address`: signature, type, level, number of entries and two
/// sibling addresses, then the entries with one key more than children.
pub open spec fn node_at(ctx: CtxView, address: u64, rank: nat) -> std::result::Result<
    NodeView,
    ErrorView,
> {
    let sizes = ctx.sizes();
    let header_len = 8 + 2 * sizes.offset;
    match ctx.fetch(address, header_len) { Err(e) => Err(e), Ok(header) =>
    if header.take(4) != TREE_SIGNATURE@ {
        Err(ErrorView::Malformed(
            "B-tree node at "@ + decimal(address as nat) + " is missing its TREE signature"@))
    } else {
        let node_type = header[4];
        let level = header[5];
        let n = u16_in(header, 6) as nat;
        match siblings_at(header, sizes) { Err(e) => Err(e), Ok(_) =>
        if node_type != NODE_TYPE_GROUP && node_type != NODE_TYPE_CHUNK {
            Err(ErrorView::Malformed("B-tree node type "@ + decimal(node_type as nat)))
        } else {
            let body_address = ((address + header_len) % 0x1_0000_0000_0000_0000) as u64;
            let body_len = (n + 1) * key_len(node_type, sizes, rank) + n * sizes.offset;
            match ctx.fetch(body_address, body_len) { Err(e) => Err(e), Ok(body) =>
            if node_type == NODE_TYPE_GROUP {
                match group_entries_at(body, 0, n, sizes, Seq::empty()) { Err((e, _)) => Err(e), Ok((children, _)) =>
                    Ok(NodeView { node_type, level, children, chunk_keys: Seq::empty() }) }
            } else {
                match chunk_entries_at(body, 0, n, sizes, rank, Seq::empty(), Seq::empty()) { Err((e, _)) => Err(e), Ok(((chunk_keys, children), _)) =>
                    Ok(NodeView { node_type, level, children, chunk_keys }) }
            }}
        }}
    }}
}

/// The two sibling addresses of a node header, which must be spelled in a width
/// that addresses can have.
pub open spec fn siblings_at(header: Seq<u8>, sizes: Sizes) -> std::result::Result<(), ErrorView> {
    match crate::cursor::address_at(header, 8, sizes) { Err((e, _)) => Err(e), Ok((_, p)) =>
    match crate::cursor::address_at(header, p, sizes) { Err((e, _)) => Err(e), Ok(_) => Ok(()) }}
}

/// The chunks of a leaf: each child is a chunk, described by the key that
/// precedes it. They are listed behind `out`.
pub open spec fn leaf_records(
    node: NodeView,
    out: Seq<ChunkRecordView>,
) -> Seq<ChunkRecordView> {
    let n = if node.children.len() < node.chunk_keys.len() {
        node.children.len()
    } else {
        node.chunk_keys.len()
    };
    out + Seq::new(
        n,
        |i: int|
            ChunkRecordView {
                size: node.chunk_keys[i].size,
                filter_mask: node.chunk_keys[i].filter_mask,
                offset: node.chunk_keys[i].offset,
                address: node.children[i],
            },
    )
}

/// The error for a node of the wrong type.
pub open spec fn wrong_node_type(expected: Seq<char>, found: u8) -> ErrorView {
    ErrorView::Malformed(
        "expected a "@ + expected + " B-tree node, found node type "@ + decimal(found as nat),
    )
}

/// The chunks below the nodes of `stack`, the last pushed node first, listed
/// behind `out`. `count` nodes were read before, at the addresses in `visited`;
/// none is read twice.
pub open spec fn chunk_walk(
    ctx: CtxView,
    rank: nat,
    stack: Seq<u64>,
    visited: Set<u64>,
    count: nat,
    out: Seq<ChunkRecordView>,
) -> std::result::Result<Seq<ChunkRecordView>, ErrorView>
    decreases MAX_NODES + 1 - count, stack.len(),
{
    if stack.len() == 0 {
        Ok(out)
    } else if out.len() > MAX_NODES || count > MAX_NODES {
        Err(
            ErrorView::Malformed("chunk B-tree is implausibly large; the file may be cyclic"@),
        )
    } else if visited.contains(stack.last()) {
        chunk_walk(ctx, rank, stack.drop_last(), visited, count, out)
    } else {
        let seen_nodes = visited.insert(stack.last());
        match node_at(ctx, stack.last(), rank) {
            Err(e) => Err(e),
            Ok(node) => if node.node_type != NODE_TYPE_CHUNK {
                Err(wrong_node_type("chunk"@, node.node_type))
            } else if node.level == 0 {
                chunk_walk(
                    ctx,
                    rank,
                    stack.drop_last(),
                    seen_nodes,
                    count + 1,
                    leaf_records(node, out),
                )
            } else {
                chunk_walk(
                    ctx,
                    rank,
                    stack.drop_last() + node.children,
                    seen_nodes,
                    count + 1,
                    out,
                )
            },
        }
    }
}

/// The symbol table nodes below the nodes of `stack`, listed behind `out`.
pub open spec fn group_walk(
    ctx: CtxView,
    stack: Seq<u64>,
    visited: Set<u64>,
    count: nat,
    out: Seq<u64>,
) -> std::result::Result<Seq<u64>, ErrorView>
    decreases MAX_NODES + 1 - count, stack.len(),
{
    if stack.len() == 0 {
        Ok(out)
    } else if count > MAX_NODES {
        Err(
            ErrorView::Malformed("group B-tree is implausibly large; the file may be cyclic"@),
        )
    } else if visited.contains(stack.last()) {
        group_walk(ctx, stack.drop_last(), visited, count, out)
    } else {
        let seen_nodes = visited.insert(stack.last());
        match node_at(ctx, stack.last(), 0) {
            Err(e) => Err(e),
            Ok(node) => if node.node_type != NODE_TYPE_GROUP {
                Err(wrong_node_type("group"@, node.node_type))
            } else if node.level == 0 {
                group_walk(ctx, stack.drop_last(), seen_nodes, count + 1, out + node.children)
            } else {
                group_walk(ctx, stack.drop_last() + node.children, seen_nodes, count + 1, out)
            },
        }
    }
}

/// Walk a type 1 B-tree and return every chunk it indexes.
///
/// `rank` is the dataset's rank. The on-disk keys carry `rank + 1` offsets; the
/// trailing one belongs to the element-size axis and is always zero, so it is
/// dropped.
pub fn read_chunk_index<S: ByteSource + ?Sized>(ctx: Ctx<'_, S>, address: u64, rank: usize) -> (r:
    Result<Vec<ChunkRecord>>)
    ensures
        lists(
            r,
            chunk_walk(ctx@, rank as nat, seq![address], Set::empty(), 0, Seq::empty()),
            ctx.dependable() || !node_reads(ctx@, address),
        ),
{
    let mut out: Vec<ChunkRecord> = Vec::new();
    let mut visited: HashSet<u64> = HashSet::new();
    let mut count: usize = 0;
    let mut stack: Vec<u64> = Vec::new();
    stack.push(address);
    let ghost want = chunk_walk(
        ctx@,
        rank as nat,
        seq![address],
        Set::empty(),
        0,
        Seq::empty(),
    );
    assert(stack@ =~= seq![address]);
    while stack.len() > 0
        invariant
            count <= MAX_NODES + 1,
            want == chunk_walk(
                ctx@,
                rank as nat,
                seq![address],
                Set::empty(),
                0,
                Seq::empty(),
            ),
            want == chunk_walk(ctx@, rank as nat, stack@, visited@, count as nat, views(out@)),
            node_reads(ctx@, address) || (visited@ == Set::<u64>::empty() && stack@ == seq![address]),
        decreases MAX_NODES + 1 - count, stack@.len(),
    {
        let node_address: u64 = stack.pop().unwrap();
        if out.len() > MAX_NODES || count > MAX_NODES {
            return Err(
                Error::malformed("chunk B-tree is implausibly large; the file may be cyclic"),
            );
        }
        let ghost before = visited@;
        if !visited.insert(node_address) {
            assert(visited@ =~= before);
        } else {
            count = count + 1;
            let node = Node::read(ctx, node_address, rank)?;
            if node.node_type != NODE_TYPE_CHUNK {
                let m = add_text(
                    crate::text::joined("expected a ", "chunk"),
                    " B-tree node, found node type ",
                );
                return Err(Error::Malformed(crate::text::add_number(m, node.node_type as u64)));
            }
            if node.level == 0 {
                push_leaf(&node, &mut out);
            } else {
                let mut children = node.children;
                stack.append(&mut children);
            }
        }
    }
    // A deterministic order keeps reads predictable and makes tests stable.
    Ok(sort_records(out))
}

/// List the chunks of a leaf.
fn push_leaf(node: &Node, out: &mut Vec<ChunkRecord>)
    ensures
        views(final(out)@) == leaf_records(node@, views(old(out)@)),
{
    let ghost whole = leaf_records(node@, views(out@));
    let ghost start = out@.len();
    let mut i: usize = 0;
    assert(views(out@) =~= whole.take(start as int));
    while i < node.children.len() && i < node.chunk_keys.len()
        invariant
            i <= node.children@.len(),
            i <= node.chunk_keys@.len(),
            whole == leaf_records(node@, views(old(out)@)),
            start == old(out)@.len(),
            out@.len() == start + i,
            views(out@) == whole.take(start + i),
        decreases node.children@.len() - i,
    {
        let key = &node.chunk_keys[i];
        out.push(
            ChunkRecord {
                size: key.size,
                filter_mask: key.filter_mask,
                offset: slice_to_vec(key.offset.as_slice()),
                address: node.children[i],
            },
        );
        i = i + 1;
        assert(views(out@) =~= whole.take(start + i));
    }
    assert(whole.take(start + i) =~= whole);
}

/// Walk a type 0 B-tree and return the addresses of its symbol table nodes.
pub fn read_group_node_addresses<S: ByteSource + ?Sized>(ctx: Ctx<'_, S>, address: u64) -> (r:
    Result<Vec<u64>>)
    ensures
        agrees(
            seen(r),
            group_walk(ctx@, seq![address], Set::empty(), 0, Seq::empty()),
            ctx.dependable() || !node_reads(ctx@, address),
        ),
{
    let mut out: Vec<u64> = Vec::new();
    let mut visited: HashSet<u64> = HashSet::new();
    let mut count: usize = 0;
    let mut stack: Vec<u64> = Vec::new();
    stack.push(address);
    let ghost want = group_walk(ctx@, seq![address], Set::empty(), 0, Seq::empty());
    assert(stack@ =~= seq![address]);
    while stack.len() > 0
        invariant
            count <= MAX_NODES + 1,
            want == group_walk(ctx@, seq![address], Set::empty(), 0, Seq::empty()),
            want == group_walk(ctx@, stack@, visited@, count as nat, out@),
            node_reads(ctx@, address) || (visited@ == Set::<u64>::empty() && stack@ == seq![address]),
        decreases MAX_NODES + 1 - count, stack@.len(),
    {
        let node_address: u64 = stack.pop().unwrap();
        if count > MAX_NODES {
            return Err(
                Error::malformed("group B-tree is implausibly large; the file may be cyclic"),
            );
        }
        let ghost before = visited@;
        if !visited.insert(node_address) {
            assert(visited@ =~= before);
        } else {
            count = count + 1;
            let node = Node::read(ctx, node_address, 0)?;
            if node.node_type != NODE_TYPE_GROUP {
                let m = add_text(
                    crate::text::joined("expected a ", "group"),
                    " B-tree node, found node type ",
                );
                return Err(Error::Malformed(crate::text::add_number(m, node.node_type as u64)));
            }
            let mut children = node.children;
            if node.level == 0 {
                out.append(&mut children);
            } else {
                stack.append(&mut children);
            }
        }
    }
    Ok(out)
}

/// A chunk B-tree key.
#[derive(Debug, Clone)]
struct ChunkKey {
    size: u32,
    filter_mask: u32,
    offset: Vec<u64>,
}

impl View for ChunkKey {
    type V = ChunkKeyView;

    closed spec fn view(&self) -> ChunkKeyView {
        ChunkKeyView { size: self.size, filter_mask: self.filter_mask, offset: self.offset@ }
    }
}

/// One B-tree node, with its keys and child pointers.
#[derive(Debug)]
struct Node {
    node_type: u8,
    level: u8,
    children: Vec<u64>,
    chunk_keys: Vec<ChunkKey>,
}

impl View for Node {
    type V = NodeView;

    closed spec fn view(&self) -> NodeView {
        NodeView {
            node_type: self.node_type,
            level: self.level,
            children: self.children@,
            chunk_keys: views(self.chunk_keys@),
        }
    }
}

impl Node {
    fn read<S: ByteSource + ?Sized>(ctx: Ctx<'_, S>, address: u64, rank: usize) -> (r: Result<Self>)
        ensures
            agrees(
                seen(r),
                node_at(ctx@, address, rank as nat),
                ctx.dependable() || !node_reads(ctx@, address),
            ),
    {
        let sizes = ctx.sizes();
        // Header: signature, type, level, entries used, two sibling addresses.
        let header_len: u64 = 8 + 2 * sizes.offset as u64;
        let header = ctx.read(address, header_len)?;
        let mut cur = Cursor::new(header.as_slice());

        let sig = cur.take(4)?;
        assert(sig@ =~= header@.take(4));
        if !same_bytes(sig, TREE_SIGNATURE.as_slice()) {
            return Err(
                Error::Malformed(
                    add_text(numbered("B-tree node at ", address), " is missing its TREE signature"),
                ),
            );
        }
        let node_type: u8 = cur.u8()?;
        let level: u8 = cur.u8()?;
        let entries_used: u16 = cur.u16()?;
        let _left = cur.address(sizes)?;
        let _right = cur.address(sizes)?;

        // A node stores entries_used children, each preceded by a key, and one
        // trailing key. Read the whole body in one go.
        let key_len: u128 = match node_type {
            NODE_TYPE_GROUP => sizes.length as u128,
            NODE_TYPE_CHUNK => 8 + 8 * (rank as u128 + 1),
            other => {
                return Err(Error::Malformed(numbered("B-tree node type ", other as u64)));
            },
        };
        let n: u128 = entries_used as u128;
        proof {
            assert((n + 1) * key_len <= 0x1_0000 * 0x100_0000_0000_0000_0000) by (nonlinear_arith)
                requires
                    n <= 0xffff,
                    key_len <= 0x100_0000_0000_0000_0000,
            ;
            assert(n * sizes.offset <= 0x1_0000 * 0x100) by (nonlinear_arith)
                requires
                    n <= 0xffff,
                    sizes.offset <= 0xff,
            ;
        }
        let body_len: u128 = (n + 1) * key_len + n * sizes.offset as u128;
        let body = ctx.read_wide(address.wrapping_add(header_len), body_len)?;

        // The trailing key bounds the last child; it names no child of its own.
        if node_type == NODE_TYPE_GROUP {
            let children = read_group_entries(body.as_slice(), entries_used, sizes)?;
            Ok(Node { node_type, level, children, chunk_keys: Vec::new() })
        } else {
            let (chunk_keys, children) = read_chunk_entries(
                body.as_slice(),
                entries_used,
                sizes,
                rank,
            )?;
            Ok(Node { node_type, level, children, chunk_keys })
        }
    }
}

fn read_group_entries(body: &[u8], n: u16, sizes: Sizes) -> (r: Result<Vec<u64>>)
    ensures
        seen(r) == value_of(group_entries_at(body@, 0, n as nat, sizes, Seq::empty())),
{
    let mut cur = Cursor::new(body);
    let mut children: Vec<u64> = Vec::new();
    let mut left: u16 = n;
    while left > 0
        invariant
            cur.buf@ == body@,
            group_entries_at(body@, 0, n as nat, sizes, Seq::empty()) == group_entries_at(
                body@,
                cur.pos as int,
                left as nat,
                sizes,
                children@,
            ),
        decreases left,
    {
        cur.skip(sizes.length as usize)?;
        let child: u64 = cur.address_required(sizes, "B-tree child")?;
        children.push(child);
        left = left - 1;
    }
    Ok(children)
}

fn read_chunk_entries(body: &[u8], n: u16, sizes: Sizes, rank: usize) -> (r: Result<
    (Vec<ChunkKey>, Vec<u64>),
>)
    ensures
        (match r {
            Ok((keys, children)) => Ok((views(keys@), children@)),
            Err(e) => Err(e@),
        }) == value_of(
            chunk_entries_at(body@, 0, n as nat, sizes, rank as nat, Seq::empty(), Seq::empty()),
        ),
{
    let mut cur = Cursor::new(body);
    let mut keys: Vec<ChunkKey> = Vec::new();
    let mut children: Vec<u64> = Vec::new();
    let mut left: u16 = n;
    while left > 0
        invariant
            cur.buf@ == body@,
            chunk_entries_at(body@, 0, n as nat, sizes, rank as nat, Seq::empty(), Seq::empty())
                == chunk_entries_at(
                body@,
                cur.pos as int,
                left as nat,
                sizes,
                rank as nat,
                views(keys@),
                children@,
            ),
        decreases left,
    {
        let key = parse_chunk_key(&mut cur, rank)?;
        let child: u64 = cur.address_required(sizes, "B-tree child")?;
        keys.push(key);
        children.push(child);
        left = left - 1;
    }
    Ok((keys, children))
}

fn parse_chunk_key(cur: &mut Cursor<'_>, rank: usize) -> (r: Result<ChunkKey>)
    ensures
        final(cur).moved(
            *old(cur),
            seen(r),
            chunk_key_at(old(cur).buf@, old(cur).pos as int, rank as nat),
        ),
{
    let size: u32 = cur.u32()?;
    let filter_mask: u32 = cur.u32()?;
    let offset = read_u64s(cur, rank)?;
    // The final offset belongs to the element-size axis and is always zero.
    cur.skip(8)?;
    Ok(ChunkKey { size, filter_mask, offset })
}

fn read_u64s(cur: &mut Cursor<'_>, n: usize) -> (r: Result<Vec<u64>>)
    ensures
        final(cur).moved(
            *old(cur),
            seen(r),
            u64s_at(old(cur).buf@, old(cur).pos as int, n as nat, Seq::empty()),
        ),
{
    let mut out: Vec<u64> = Vec::new();
    let mut left: usize = n;
    while left > 0
        invariant
            cur.buf == old(cur).buf,
            u64s_at(old(cur).buf@, old(cur).pos as int, n as nat, Seq::empty()) == u64s_at(
                cur.buf@,
                cur.pos as int,
                left as nat,
                out@,
            ),
        decreases left,
    {
        let d: u64 = cur.u64()?;
        out.push(d);
        left = left - 1;
    }
    Ok(out)
}

/// Records in offset order never go back: no record stands behind one whose
/// offset comes later, and the records are those that were given.
pub proof fn chunks_come_in_offset_order(
    records: Seq<ChunkRecordView>,
    out: Seq<ChunkRecordView>,
    i: int,
    j: int,
)
    requires
        in_offset_order(records, out),
        0 <= i < j < out.len(),
    ensures
        out.len() == records.len(),
        !key_less(out[j].offset, out[i].offset),
        exists|k: int| 0 <= k < records.len() && #[trigger] records[k] == out[i],
{
    let order = choose|order: Seq<int>|
        #![trigger is_ranking(offsets(records), order)]
        is_ranking(offsets(records), order) && out == Seq::new(
            records.len(),
            |i: int| records[order[i]],
        );
    let (a, b) = (order[i], order[j]);
    assert(ranks_before(offsets(records), a, b));
    let (x, y) = (records[a].offset, records[b].offset);
    if key_less(y, x) {
        if key_less(x, y) {
            lemma_key_less_transitive(x, y, x);
        }
        lemma_key_less_irreflexive(x);
    }
    assert(records[a] == out[i]);
}

/// The records in the order of their offsets.
pub open spec fn ordered(records: Seq<ChunkRecordView>) -> Seq<ChunkRecordView> {
    choose|out: Seq<ChunkRecordView>| in_offset_order(records, out)
}

/// Records have only one offset order.
pub proof fn lemma_ordered(records: Seq<ChunkRecordView>, out: Seq<ChunkRecordView>)
    requires
        in_offset_order(records, out),
    ensures
        out == ordered(records),
{
    let other = ordered(records);
    assert(in_offset_order(records, other));
    let keys = offsets(records);
    let a = choose|order: Seq<int>|
        #![trigger is_ranking(keys, order)]
        is_ranking(keys, order) && out == Seq::new(records.len(), |i: int| records[order[i]]);
    let b = choose|order: Seq<int>|
        #![trigger is_ranking(keys, order)]
        is_ranking(keys, order) && other == Seq::new(records.len(), |i: int| records[order[i]]);
    lemma_ranking_unique(keys, a, b);
}

} // verus!
