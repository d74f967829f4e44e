//! What a version 2 B-tree holds: its records, in order.

use vstd::prelude::*;

#[allow(unused_imports)]
use crate::btree2::{
    collected, collected_below, internal_at, leaf_at, node_prefix, pointer_total_size, pointers_at,
    records_at, tree_at, tree_header, BtreeV2View, Collected, TreeHeader, TreeShape,
};
#[allow(unused_imports)]
use crate::bytes::pow256;
#[allow(unused_imports)]
use crate::context::CtxView;
#[allow(unused_imports)]
use crate::cursor::{skip_at, take_at, u16_at, u32_at, u8_at, uint_at, Parse, Sizes};
#[allow(unused_imports)]
use crate::error::ErrorView;
#[allow(unused_imports)]
use crate::laws::writing::{
    address, addressable, holds, joined, le, lemma_holds_address, lemma_holds_both, lemma_holds_one,
    lemma_holds_taken, lemma_holds_u16, lemma_holds_u32, lemma_holds_uint, lemma_le_len,
    lemma_sealed, lemma_stands, sealed, stands_at,
};

verus! {

/// A tree of records. A leaf holds nothing but records; any other node holds one child
/// more than it has records.
pub enum Tree {
    Leaf { records: Seq<Seq<u8>> },
    Node { records: Seq<Seq<u8>>, children: Seq<Branch> },
}

/// A child, where it stands, and how many records there are below it.
pub struct Branch {
    pub tree: Tree,
    pub at: u64,
    pub below: nat,
}

/// The records that a node holds itself.
pub open spec fn own_records(t: Tree) -> Seq<Seq<u8>> {
    match t {
        Tree::Leaf { records } => records,
        Tree::Node { records, .. } => records,
    }
}

/// All records of a tree: those of the first child, the first record, those of the
/// second child, the second record, and so on.
pub open spec fn in_order(t: Tree) -> Seq<Seq<u8>>
    decreases t,
{
    match t {
        Tree::Leaf { records } => records,
        Tree::Node { records, children } => woven(children, records),
    }
}

/// Children and the records between them.
pub open spec fn woven(children: Seq<Branch>, records: Seq<Seq<u8>>) -> Seq<Seq<u8>>
    decreases children, children.len(),
{
    if children.len() == 0 {
        Seq::empty()
    } else {
        in_order(children[0].tree) + if records.len() > 0 {
            seq![records[0]] + woven(children.skip(1), records.skip(1))
        } else {
            woven(children.skip(1), records)
        }
    }
}

/// How many nodes a tree has.
pub open spec fn nodes_of(t: Tree) -> nat
    decreases t,
{
    match t {
        Tree::Leaf { .. } => 1,
        Tree::Node { children, .. } => 1 + nodes_below(children),
    }
}

/// How many nodes the children have together.
pub open spec fn nodes_below(children: Seq<Branch>) -> nat
    decreases children, children.len(),
{
    if children.len() == 0 {
        0
    } else {
        nodes_of(children[0].tree) + nodes_below(children.skip(1))
    }
}

/// Pointers to the children: the address of each, how many records it holds itself, and
/// how many there are below it.
pub open spec fn pointers_written(
    children: Seq<Branch>,
    offset: nat,
    count: nat,
    total: nat,
) -> Seq<u8>
    decreases children.len(),
{
    if children.len() == 0 {
        Seq::empty()
    } else {
        le(children[0].at as nat, offset) + (le(own_records(children[0].tree).len(), count) + (le(
            children[0].below,
            total,
        ) + pointers_written(children.skip(1), offset, count, total)))
    }
}

/// The bytes of a leaf.
pub open spec fn leaf_written(kind: u8, records: Seq<Seq<u8>>) -> Seq<u8> {
    sealed(
        seq![0x42u8, 0x54u8, 0x4cu8, 0x46u8] + (seq![0u8] + (seq![kind] + joined(records))),
    )
}

/// The bytes of any other node.
pub open spec fn internal_written(kind: u8, records: Seq<Seq<u8>>, pointers: Seq<u8>) -> Seq<u8> {
    sealed(
        seq![0x42u8, 0x54u8, 0x49u8, 0x4eu8] + (seq![0u8] + (seq![kind] + (joined(records)
            + pointers))),
    )
}

/// Every record has the size of a record.
pub open spec fn sized(records: Seq<Seq<u8>>, size: nat) -> bool {
    forall|i: int| 0 <= i < records.len() ==> (#[trigger] records[i]).len() == size
}

/// The tree stands in the file, its root at `at`, `depth` levels above the leaves.
pub open spec fn grows_at(
    ctx: CtxView,
    at: u64,
    depth: nat,
    shape: TreeShape,
    kind: u8,
    t: Tree,
) -> bool
    decreases t,
{
    match t {
        Tree::Leaf { records } => {
            &&& depth == 0
            &&& sized(records, shape.record_size)
            &&& records.len() <= u64::MAX
            &&& stands_at(ctx, at, leaf_written(kind, records))
        },
        Tree::Node { records, children } => {
            &&& depth > 0
            &&& sized(records, shape.record_size)
            &&& records.len() < u64::MAX
            &&& children.len() == records.len() + 1
            &&& stands_at(
                ctx,
                at,
                internal_written(
                    kind,
                    records,
                    pointers_written(
                        children,
                        shape.offset_size as nat,
                        shape.layout.max_nrec_size,
                        pointer_total_size(shape, depth),
                    ),
                ),
            )
            &&& all_grow(ctx, (depth - 1) as nat, shape, kind, children)
        },
    }
}

/// The children stand where their parent says.
pub open spec fn all_grow(
    ctx: CtxView,
    depth: nat,
    shape: TreeShape,
    kind: u8,
    children: Seq<Branch>,
) -> bool
    decreases children, children.len(),
{
    children.len() == 0 || {
        &&& children[0].at < pow256(shape.offset_size as nat)
        &&& own_records(children[0].tree).len() < pow256(shape.layout.max_nrec_size)
        &&& grows_at(ctx, children[0].at, depth, shape, kind, children[0].tree)
        &&& all_grow(ctx, depth, shape, kind, children.skip(1))
    }
}

proof fn lemma_records(b: Seq<u8>, p: int, records: Seq<Seq<u8>>, size: nat, out: Seq<Seq<u8>>)
    requires
        sized(records, size),
        holds(b, p, joined(records)),
    ensures
        records_at(b, p, records.len(), size, out) == Parse::<Seq<Seq<u8>>>::Ok(
            (out + records, p + records.len() * size),
        ),
        joined(records).len() == records.len() * size,
    decreases records.len(),
{
    if records.len() > 0 {
        let rest = records.skip(1);
        assert(records[0].len() == size);
        lemma_holds_both(b, p, records[0], joined(rest));
        lemma_holds_taken(b, p, records[0]);
        let more = out.push(records[0]);
        assert(sized(rest, size)) by {
            assert forall|i: int| 0 <= i < rest.len() implies (#[trigger] rest[i]).len()
                == size by {
                assert(records[i + 1].len() == size);
            }
        }
        lemma_records(b, p + size, rest, size, more);
        assert(more + rest =~= out + records);
        let (n, w) = (records.len() as int, size as int);
        assert(n * w == (n - 1) * w + w) by (nonlinear_arith);
    } else {
        assert(out + records =~= out);
        assert(0 * size == 0);
    }
}

/// Where the children stand and how many records each holds.
pub open spec fn pointers_of(children: Seq<Branch>) -> Seq<(u64, u64)> {
    Seq::new(
        children.len(),
        |i: int| (children[i].at, own_records(children[i].tree).len() as u64),
    )
}

proof fn lemma_pointers(
    ctx: CtxView,
    b: Seq<u8>,
    p: int,
    depth: nat,
    shape: TreeShape,
    kind: u8,
    children: Seq<Branch>,
    total: nat,
    out: Seq<(u64, u64)>,
)
    requires
        all_grow(ctx, depth, shape, kind, children),
        0 < shape.offset_size <= 8,
        0 < shape.layout.max_nrec_size <= 8,
        holds(
            b,
            p,
            pointers_written(
                children,
                shape.offset_size as nat,
                shape.layout.max_nrec_size,
                total,
            ),
        ),
    ensures
        pointers_at(b, p, children.len(), shape, total, out) == Parse::<Seq<(u64, u64)>>::Ok(
            (
                out + pointers_of(children),
                p + children.len() * (shape.offset_size + shape.layout.max_nrec_size + total),
            ),
        ),
        pointers_written(
            children,
            shape.offset_size as nat,
            shape.layout.max_nrec_size,
            total,
        ).len() == children.len() * (shape.offset_size + shape.layout.max_nrec_size + total),
    decreases children.len(),
{
    let w = shape.offset_size + shape.layout.max_nrec_size + total;
    if children.len() > 0 {
        let (o, c) = (shape.offset_size as nat, shape.layout.max_nrec_size);
        let rest = children.skip(1);
        let tail = pointers_written(rest, o, c, total);
        let n = own_records(children[0].tree).len();
        let (x, y, z) = (le(children[0].at as nat, o), le(n, c), le(children[0].below, total));
        lemma_le_len(children[0].at as nat, o);
        lemma_le_len(n, c);
        lemma_le_len(children[0].below, total);
        lemma_holds_both(b, p, x, y + (z + tail));
        lemma_holds_uint(b, p, children[0].at as nat, shape.offset_size);
        lemma_holds_both(b, p + o, y, z + tail);
        lemma_holds_uint(b, p + o, n, c as u8);
        lemma_holds_both(b, p + o + c, z, tail);
        lemma_holds_taken(b, p + o + c, z);
        let more = out.push((children[0].at, n as u64));
        lemma_pointers(ctx, b, p + w, depth, shape, kind, rest, total, more);
        assert(more + pointers_of(rest) =~= out + pointers_of(children));
        let k = children.len() as int;
        assert(k * w == (k - 1) * w + w) by (nonlinear_arith);
    } else {
        assert(out + pointers_of(children) =~= out);
        assert(0 * w == 0);
    }
}

proof fn lemma_prefix(sig: Seq<u8>, kind: u8, rest: Seq<u8>, b: Seq<u8>)
    requires
        sig.len() == 4,
        b == sealed(sig + (seq![0u8] + (seq![kind] + rest))),
    ensures
        b.len() == rest.len() + 10,
        b.take(4) == sig,
        holds(b, 6, rest),
        forall|what: Seq<char>| #[trigger]
            crate::objheader::checked(b, b.len() - 4, what) is Ok,
{
    let s = sig + (seq![0u8] + (seq![kind] + rest));
    lemma_sealed(s, Seq::empty());
    lemma_holds_both(b, 0, sig, seq![0u8] + (seq![kind] + rest));
    lemma_holds_both(b, 4, seq![0u8], seq![kind] + rest);
    lemma_holds_both(b, 5, seq![kind], rest);
    assert(b.take(4) =~= b.subrange(0, 4));
    assert forall|what: Seq<char>| #[trigger]
        crate::objheader::checked(b, b.len() - 4, what) is Ok by {
        lemma_sealed(s, what);
    }
}

proof fn lemma_leaf_node(
    ctx: CtxView,
    at: u64,
    shape: TreeShape,
    kind: u8,
    records: Seq<Seq<u8>>,
    out: Collected,
)
    requires
        sized(records, shape.record_size),
        records.len() <= u64::MAX,
        stands_at(ctx, at, leaf_written(kind, records)),
    ensures
        leaf_at(ctx, at, records.len() as u64, shape, out) == std::result::Result::<
            Collected,
            ErrorView,
        >::Ok(Collected { records: out.records + records, visited: out.visited }),
{
    let b = leaf_written(kind, records);
    let sig = seq![0x42u8, 0x54u8, 0x4cu8, 0x46u8];
    assert(crate::btree2::BTLF_SIGNATURE@ =~= sig);
    lemma_prefix(sig, kind, joined(records), b);
    lemma_stands(ctx, at, b);
    lemma_records(b, 6, records, shape.record_size, out.records);
}

proof fn lemma_internal_node(
    ctx: CtxView,
    at: u64,
    depth: nat,
    shape: TreeShape,
    kind: u8,
    records: Seq<Seq<u8>>,
    children: Seq<Branch>,
)
    requires
        0 < shape.offset_size <= 8,
        0 < shape.layout.max_nrec_size <= 8,
        grows_at(ctx, at, depth, shape, kind, Tree::Node { records, children }),
    ensures
        internal_at(ctx, at, depth, records.len() as u64, shape) == std::result::Result::<
            (Seq<Seq<u8>>, Seq<(u64, u64)>),
            ErrorView,
        >::Ok((records, pointers_of(children))),
{
    let total = pointer_total_size(shape, depth);
    let pointers = pointers_written(
        children,
        shape.offset_size as nat,
        shape.layout.max_nrec_size,
        total,
    );
    let b = internal_written(kind, records, pointers);
    let sig = seq![0x42u8, 0x54u8, 0x49u8, 0x4eu8];
    assert(crate::btree2::BTIN_SIGNATURE@ =~= sig);
    lemma_prefix(sig, kind, joined(records) + pointers, b);
    lemma_stands(ctx, at, b);
    lemma_holds_both(b, 6, joined(records), pointers);
    lemma_records(b, 6, records, shape.record_size, Seq::empty());
    assert(Seq::<Seq<u8>>::empty() + records =~= records);
    lemma_pointers(
        ctx,
        b,
        6 + joined(records).len() as int,
        (depth - 1) as nat,
        shape,
        kind,
        children,
        total,
        Seq::empty(),
    );
    assert(Seq::<(u64, u64)>::empty() + pointers_of(children) =~= pointers_of(children));
}

proof fn lemma_collected(
    ctx: CtxView,
    at: u64,
    depth: nat,
    shape: TreeShape,
    kind: u8,
    t: Tree,
    out: Collected,
)
    requires
        0 < shape.offset_size <= 8,
        0 < shape.layout.max_nrec_size <= 8,
        grows_at(ctx, at, depth, shape, kind, t),
        out.visited + nodes_of(t) <= 0x10_0000,
    ensures
        collected(ctx, at, depth, own_records(t).len() as u64, shape, out)
            == std::result::Result::<Collected, ErrorView>::Ok(
            Collected {
                records: out.records + in_order(t),
                visited: out.visited + nodes_of(t),
            },
        ),
    decreases t,
{
    let next = Collected { records: out.records, visited: out.visited + 1 };
    match t {
        Tree::Leaf { records } => {
            lemma_leaf_node(ctx, at, shape, kind, records, next);
        },
        Tree::Node { records, children } => {
            lemma_internal_node(ctx, at, depth, shape, kind, records, children);
            lemma_collected_below(ctx, (depth - 1) as nat, shape, kind, records, children, next);
        },
    }
}

proof fn lemma_collected_below(
    ctx: CtxView,
    depth: nat,
    shape: TreeShape,
    kind: u8,
    records: Seq<Seq<u8>>,
    children: Seq<Branch>,
    out: Collected,
)
    requires
        0 < shape.offset_size <= 8,
        0 < shape.layout.max_nrec_size <= 8,
        all_grow(ctx, depth, shape, kind, children),
        out.visited + nodes_below(children) <= 0x10_0000,
    ensures
        collected_below(ctx, depth, records, pointers_of(children), shape, out)
            == std::result::Result::<Collected, ErrorView>::Ok(
            Collected {
                records: out.records + woven(children, records),
                visited: out.visited + nodes_below(children),
            },
        ),
    decreases children, children.len(),
{
    if children.len() == 0 {
        assert(out.records + woven(children, records) =~= out.records);
    } else {
        let first = children[0];
        let rest = children.skip(1);
        lemma_collected(ctx, first.at, depth, shape, kind, first.tree, out);
        assert(pointers_of(children)[0] == (first.at, own_records(first.tree).len() as u64));
        assert(pointers_of(children).skip(1) =~= pointers_of(rest));
        let more = Collected {
            records: if records.len() > 0 {
                (out.records + in_order(first.tree)).push(records[0])
            } else {
                out.records + in_order(first.tree)
            },
            visited: out.visited + nodes_of(first.tree),
        };
        let left = if records.len() > 0 {
            records.skip(1)
        } else {
            records
        };
        lemma_collected_below(ctx, depth, shape, kind, left, rest, more);
        assert(more.records + woven(rest, left) =~= out.records + woven(children, records));
    }
}

/// The header of a tree.
pub open spec fn header_written(h: TreeHeader, split: u8, merge: u8, total: nat, sizes: Sizes) -> Seq<
    u8,
> {
    sealed(
        seq![0x42u8, 0x54u8, 0x48u8, 0x44u8] + (seq![0u8] + (seq![h.record_type] + (le(
            h.node_size as nat,
            4,
        ) + (le(h.record_size as nat, 2) + (le(h.depth as nat, 2) + (seq![split] + (seq![merge] + (
        address(h.root_address, sizes) + (le(h.root_records as nat, 2) + le(
            total,
            sizes.length as nat,
        )))))))))),
    )
}

#[verifier::spinoff_prover]
proof fn lemma_header(h: TreeHeader, split: u8, merge: u8, total: nat, sizes: Sizes)
    requires
        addressable(h.root_address, sizes),
        0 < sizes.length <= 8,
        total < pow256(sizes.length as nat),
    ensures
        ({
            let b = header_written(h, split, merge, total, sizes);
            &&& b.len() == 22 + sizes.offset + sizes.length
            &&& tree_header(b, sizes) == Parse::<TreeHeader>::Ok((h, b.len() as int))
        }),
{
    let b = header_written(h, split, merge, total, sizes);
    let sig = seq![0x42u8, 0x54u8, 0x48u8, 0x44u8];
    let w = sizes.length as nat;
    let at = address(h.root_address, sizes);
    let t8 = le(h.root_records as nat, 2) + le(total, w);
    let t7 = at + t8;
    let t6 = seq![merge] + t7;
    let t5 = seq![split] + t6;
    let t4 = le(h.depth as nat, 2) + t5;
    let t3 = le(h.record_size as nat, 2) + t4;
    let t2 = le(h.node_size as nat, 4) + t3;
    let t1 = seq![h.record_type] + t2;
    let s = sig + (seq![0u8] + t1);
    assert(b == sealed(s));
    lemma_sealed(s, Seq::empty());
    assert(crate::btree2::BTHD_SIGNATURE@ =~= sig);
    lemma_le_len(h.node_size as nat, 4);
    lemma_le_len(h.record_size as nat, 2);
    lemma_le_len(h.depth as nat, 2);
    lemma_le_len(h.root_records as nat, 2);
    lemma_le_len(total, w);
    lemma_holds_both(b, 0, sig, seq![0u8] + t1);
    lemma_holds_taken(b, 0, sig);
    lemma_holds_both(b, 4, seq![0u8], t1);
    lemma_holds_one(b, 4, 0);
    lemma_holds_both(b, 5, seq![h.record_type], t2);
    lemma_holds_one(b, 5, h.record_type);
    lemma_holds_both(b, 6, le(h.node_size as nat, 4), t3);
    lemma_holds_u32(b, 6, h.node_size as nat);
    lemma_holds_both(b, 10, le(h.record_size as nat, 2), t4);
    lemma_holds_u16(b, 10, h.record_size as nat);
    lemma_holds_both(b, 12, le(h.depth as nat, 2), t5);
    lemma_holds_u16(b, 12, h.depth as nat);
    lemma_holds_both(b, 14, seq![split], t6);
    lemma_holds_one(b, 14, split);
    lemma_holds_both(b, 15, seq![merge], t7);
    lemma_holds_one(b, 15, merge);
    lemma_holds_both(b, 16, at, t8);
    lemma_holds_address(b, 16, h.root_address, sizes);
    let p = 16 + sizes.offset;
    lemma_holds_both(b, p, le(h.root_records as nat, 2), le(total, w));
    lemma_holds_u16(b, p, h.root_records as nat);
    lemma_holds_uint(b, p + 2, total, sizes.length);
    let q = p + 2 + sizes.length;
    assert(q == s.len());
    assert(holds(b, q, le(crate::checksum::metadata_checksum(s) as nat, 4))) by {
        lemma_le_len(crate::checksum::metadata_checksum(s) as nat, 4);
        assert(b.subrange(q, q + 4) =~= le(crate::checksum::metadata_checksum(s) as nat, 4));
    }
    lemma_holds_u32(b, q, crate::checksum::metadata_checksum(s) as nat);
}

/// Reading a version 2 B-tree gives all of its records, in order: every record of every
/// leaf, and every record between two children.
pub proof fn a_tree_gives_its_records_in_order(
    ctx: CtxView,
    at: u64,
    root: u64,
    h: TreeHeader,
    split: u8,
    merge: u8,
    total: nat,
    t: Tree,
    shape: TreeShape,
)
    requires
        h.root_address == Some(root),
        addressable(Some(root), ctx.sizes()),
        0 < ctx.sizes().length <= 8,
        total < pow256(ctx.sizes().length as nat),
        h.record_size > 0,
        h.node_size > 10,
        h.root_records == own_records(t).len(),
        nodes_of(t) <= 0x10_0000,
        shape.record_size == h.record_size,
        shape.offset_size == ctx.sizes().offset,
        shape.layout == crate::btree2::node_layout(
            h.node_size as nat,
            h.record_size as nat,
            h.depth as nat,
            ctx.sizes().offset as nat,
        ),
        stands_at(ctx, at, header_written(h, split, merge, total, ctx.sizes())),
        grows_at(ctx, root, h.depth as nat, shape, h.record_type, t),
    ensures
        tree_at(ctx, at) == std::result::Result::<BtreeV2View, ErrorView>::Ok(
            BtreeV2View {
                record_type: h.record_type,
                record_size: h.record_size as nat,
                records: in_order(t),
            },
        ),
{
    let sizes = ctx.sizes();
    let b = header_written(h, split, merge, total, sizes);
    lemma_header(h, split, merge, total, sizes);
    lemma_stands(ctx, at, b);
    assert(ctx.fetch_upto(at, 22 + sizes.offset + sizes.length) == ctx.fetch(at, b.len() as int));
    lemma_collected(
        ctx,
        root,
        h.depth as nat,
        shape,
        h.record_type,
        t,
        Collected { records: Seq::empty(), visited: 0 },
    );
    assert(Seq::<Seq<u8>>::empty() + in_order(t) =~= in_order(t));
}

/// A tree without a root has no records.
pub proof fn a_tree_without_a_root_is_empty(
    ctx: CtxView,
    at: u64,
    h: TreeHeader,
    split: u8,
    merge: u8,
    total: nat,
)
    requires
        h.root_address is None,
        0 < ctx.sizes().offset <= 8,
        0 < ctx.sizes().length <= 8,
        total < pow256(ctx.sizes().length as nat),
        h.record_size > 0,
        h.node_size > 10,
        stands_at(ctx, at, header_written(h, split, merge, total, ctx.sizes())),
    ensures
        tree_at(ctx, at) matches Ok(t) && t.records.len() == 0,
{
    let sizes = ctx.sizes();
    let b = header_written(h, split, merge, total, sizes);
    lemma_header(h, split, merge, total, sizes);
    lemma_stands(ctx, at, b);
    assert(ctx.fetch_upto(at, 22 + sizes.offset + sizes.length) == ctx.fetch(at, b.len() as int));
}

} // verus!
