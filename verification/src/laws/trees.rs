//! What walking a version 1 B-tree finds: every leaf that the root leads to, once.

use vstd::prelude::*;

#[allow(unused_imports)]
use crate::btree1::{
    chunk_entries_at, chunk_key_at, chunk_walk, chunks_come_in_offset_order, group_entries_at,
    group_walk, in_offset_order, leaf_records, lists, node_at, offsets, ChunkKeyView, ChunkRecord, ChunkRecordView, NodeView,
    u64s_at, MAX_NODES,
};
#[allow(unused_imports)]
use crate::context::CtxView;
#[allow(unused_imports)]
use crate::cursor::{address_required_at, Parse, Sizes};
#[allow(unused_imports)]
use crate::error::{ErrorView, Result};
#[allow(unused_imports)]
use crate::laws::writing::{
    address, addressable, holds, le, lemma_holds_address, lemma_holds_both, lemma_holds_one,
    lemma_holds_taken, lemma_holds_u16, lemma_holds_u32, lemma_holds_u64, lemma_le_len,
    lemma_stands, lemma_stands_both, stands_at,
};
#[allow(unused_imports)]
use crate::ranking::{
    is_ranking, key_less, lemma_key_less_irreflexive, lemma_key_less_total, lemma_ranking_lists_all,
};
#[allow(unused_imports)]
use crate::views::views;

verus! {

// ── parents and children ───────────────────────────────────────────────────

/// The node at `parent` is an internal node that lists `child`.
pub open spec fn is_parent(ctx: CtxView, rank: nat, parent: u64, child: u64) -> bool {
    &&& node_at(ctx, parent, rank) is Ok
    &&& node_at(ctx, parent, rank)->Ok_0.level > 0
    &&& node_at(ctx, parent, rank)->Ok_0.children.contains(child)
}

/// Step `i` of a path goes from a parent to a child.
pub open spec fn is_step(ctx: CtxView, rank: nat, path: Seq<u64>, i: int) -> bool {
    is_parent(ctx, rank, path[i], path[i + 1])
}

/// The path goes from `root` to `a`, each step from a parent to a child.
pub open spec fn is_path(ctx: CtxView, rank: nat, root: u64, a: u64, path: Seq<u64>) -> bool {
    &&& path.len() > 0
    &&& path[0] == root
    &&& path.last() == a
    &&& forall|i: int| 0 <= i < path.len() - 1 ==> #[trigger] is_step(ctx, rank, path, i)
}

/// The node at `a` belongs to the tree whose root is at `root`.
pub open spec fn reaches(ctx: CtxView, rank: nat, root: u64, a: u64) -> bool {
    exists|path: Seq<u64>| #[trigger] is_path(ctx, rank, root, a, path)
}

/// The node at `a` is a leaf.
pub open spec fn is_leaf(ctx: CtxView, rank: nat, a: u64) -> bool {
    node_at(ctx, a, rank) is Ok && node_at(ctx, a, rank)->Ok_0.level == 0
}

proof fn lemma_reaches_itself(ctx: CtxView, rank: nat, root: u64)
    ensures
        reaches(ctx, rank, root, root),
{
    assert(is_path(ctx, rank, root, root, seq![root]));
}

proof fn lemma_reaches_child(ctx: CtxView, rank: nat, root: u64, a: u64, c: u64)
    requires
        reaches(ctx, rank, root, a),
        is_parent(ctx, rank, a, c),
    ensures
        reaches(ctx, rank, root, c),
{
    let path = choose|path: Seq<u64>| #[trigger] is_path(ctx, rank, root, a, path);
    let longer = path.push(c);
    assert forall|i: int| 0 <= i < longer.len() - 1 implies #[trigger] is_step(
        ctx,
        rank,
        longer,
        i,
    ) by {
        if i < path.len() - 1 {
            assert(is_step(ctx, rank, path, i));
        }
    }
    assert(is_path(ctx, rank, root, c, longer));
}

/// The walk has done what it has to for the node at `a`: a leaf is among the leaves,
/// and the children of an internal node were visited or are still to come.
spec fn is_done(
    ctx: CtxView,
    rank: nat,
    stack: Seq<u64>,
    visited: Set<u64>,
    leaves: Seq<u64>,
    a: u64,
) -> bool {
    &&& node_at(ctx, a, rank) is Ok
    &&& is_leaf(ctx, rank, a) ==> leaves.contains(a)
    &&& forall|c: u64|
        is_parent(ctx, rank, a, c) ==> visited.contains(c) || #[trigger] stack.contains(c)
}

/// What holds between two steps of a walk.
spec fn is_under_way(
    ctx: CtxView,
    rank: nat,
    root: u64,
    stack: Seq<u64>,
    visited: Set<u64>,
    leaves: Seq<u64>,
) -> bool {
    &&& forall|i: int| 0 <= i < stack.len() ==> reaches(ctx, rank, root, #[trigger] stack[i])
    &&& forall|a: u64| #[trigger]
        visited.contains(a) ==> reaches(ctx, rank, root, a) && is_done(
            ctx,
            rank,
            stack,
            visited,
            leaves,
            a,
        )
    &&& leaves.no_duplicates()
    &&& forall|i: int|
        0 <= i < leaves.len() ==> visited.contains(#[trigger] leaves[i]) && is_leaf(
            ctx,
            rank,
            leaves[i],
        )
}

/// Skipping a node that was visited before.
proof fn lemma_skip(
    ctx: CtxView,
    rank: nat,
    root: u64,
    stack: Seq<u64>,
    visited: Set<u64>,
    leaves: Seq<u64>,
)
    requires
        stack.len() > 0,
        visited.contains(stack.last()),
        is_under_way(ctx, rank, root, stack, visited, leaves),
    ensures
        is_under_way(ctx, rank, root, stack.drop_last(), visited, leaves),
{
    let rest = stack.drop_last();
    assert forall|a: u64| #[trigger] visited.contains(a) implies is_done(
        ctx,
        rank,
        rest,
        visited,
        leaves,
        a,
    ) by {
        assert(is_done(ctx, rank, stack, visited, leaves, a));
        assert forall|c: u64| is_parent(ctx, rank, a, c) implies visited.contains(c)
            || #[trigger] rest.contains(c) by {
            if stack.contains(c) && !visited.contains(c) {
                let i = stack.index_of(c);
                assert(rest[i] == c);
            }
        }
    }
}

/// Visiting a leaf.
proof fn lemma_leaf(
    ctx: CtxView,
    rank: nat,
    root: u64,
    stack: Seq<u64>,
    visited: Set<u64>,
    leaves: Seq<u64>,
)
    requires
        stack.len() > 0,
        !visited.contains(stack.last()),
        is_leaf(ctx, rank, stack.last()),
        is_under_way(ctx, rank, root, stack, visited, leaves),
    ensures
        is_under_way(
            ctx,
            rank,
            root,
            stack.drop_last(),
            visited.insert(stack.last()),
            leaves.push(stack.last()),
        ),
{
    let rest = stack.drop_last();
    let x = stack.last();
    let seen = visited.insert(x);
    let more = leaves.push(x);
    assert(more[more.len() - 1] == x);
    assert forall|a: u64| #[trigger] seen.contains(a) implies reaches(ctx, rank, root, a)
        && is_done(ctx, rank, rest, seen, more, a) by {
        if a != x {
            assert(visited.contains(a));
            assert(is_done(ctx, rank, stack, visited, leaves, a));
            assert forall|c: u64| is_parent(ctx, rank, a, c) implies seen.contains(c)
                || #[trigger] rest.contains(c) by {
                if stack.contains(c) && c != x {
                    let i = stack.index_of(c);
                    assert(rest[i] == c);
                }
            }
            if is_leaf(ctx, rank, a) {
                let i = leaves.index_of(a);
                assert(more[i] == a);
            }
        } else {
            assert(stack[stack.len() - 1] == x);
        }
    }
    assert forall|i: int| 0 <= i < more.len() implies seen.contains(#[trigger] more[i])
        && is_leaf(ctx, rank, more[i]) by {
        if i < leaves.len() {
            assert(visited.contains(leaves[i]));
        }
    }
}

/// Visiting an internal node.
proof fn lemma_internal(
    ctx: CtxView,
    rank: nat,
    root: u64,
    stack: Seq<u64>,
    visited: Set<u64>,
    leaves: Seq<u64>,
)
    requires
        stack.len() > 0,
        !visited.contains(stack.last()),
        node_at(ctx, stack.last(), rank) is Ok,
        node_at(ctx, stack.last(), rank)->Ok_0.level > 0,
        is_under_way(ctx, rank, root, stack, visited, leaves),
    ensures
        is_under_way(
            ctx,
            rank,
            root,
            stack.drop_last() + node_at(ctx, stack.last(), rank)->Ok_0.children,
            visited.insert(stack.last()),
            leaves,
        ),
{
    let x = stack.last();
    let children = node_at(ctx, x, rank)->Ok_0.children;
    let rest = stack.drop_last() + children;
    let seen = visited.insert(x);
    assert(stack[stack.len() - 1] == x);
    assert forall|i: int| 0 <= i < rest.len() implies reaches(
        ctx,
        rank,
        root,
        #[trigger] rest[i],
    ) by {
        if i < stack.len() - 1 {
            assert(rest[i] == stack[i]);
        } else {
            let c = children[i - (stack.len() - 1)];
            assert(rest[i] == c);
            assert(children.contains(c));
            lemma_reaches_child(ctx, rank, root, x, c);
        }
    }
    assert forall|a: u64| #[trigger] seen.contains(a) implies reaches(ctx, rank, root, a)
        && is_done(ctx, rank, rest, seen, leaves, a) by {
        if a != x {
            assert(visited.contains(a));
            assert(is_done(ctx, rank, stack, visited, leaves, a));
            assert forall|c: u64| is_parent(ctx, rank, a, c) implies seen.contains(c)
                || #[trigger] rest.contains(c) by {
                if stack.contains(c) && c != x {
                    let i = stack.index_of(c);
                    assert(rest[i] == c);
                }
            }
        } else {
            assert forall|c: u64| is_parent(ctx, rank, a, c) implies seen.contains(c)
                || #[trigger] rest.contains(c) by {
                let i = children.index_of(c);
                assert(rest[stack.len() - 1 + i] == c);
            }
        }
    }
}

proof fn lemma_start(ctx: CtxView, rank: nat, root: u64)
    ensures
        is_under_way(ctx, rank, root, seq![root], Set::empty(), Seq::empty()),
{
    lemma_reaches_itself(ctx, rank, root);
}

/// When nothing is left to visit, everything that the root leads to was visited.
proof fn lemma_all_visited(
    ctx: CtxView,
    rank: nat,
    root: u64,
    visited: Set<u64>,
    leaves: Seq<u64>,
    path: Seq<u64>,
    n: int,
)
    requires
        is_under_way(ctx, rank, root, Seq::empty(), visited, leaves),
        visited.contains(root),
        is_path(ctx, rank, root, path.last(), path),
        0 <= n < path.len(),
    ensures
        visited.contains(path[n]),
    decreases n,
{
    if n > 0 {
        lemma_all_visited(ctx, rank, root, visited, leaves, path, n - 1);
        assert(is_step(ctx, rank, path, n - 1));
        assert(is_done(ctx, rank, Seq::empty(), visited, leaves, path[n - 1]));
        assert(!Seq::<u64>::empty().contains(path[n]));
    }
}

/// The leaves are those that the root leads to, each once.
pub open spec fn are_the_leaves(ctx: CtxView, rank: nat, root: u64, leaves: Seq<u64>) -> bool {
    &&& leaves.no_duplicates()
    &&& forall|a: u64| #[trigger]
        leaves.contains(a) <==> reaches(ctx, rank, root, a) && is_leaf(ctx, rank, a)
}

proof fn lemma_leaves(ctx: CtxView, rank: nat, root: u64, visited: Set<u64>, leaves: Seq<u64>)
    requires
        is_under_way(ctx, rank, root, Seq::empty(), visited, leaves),
        visited.contains(root),
    ensures
        are_the_leaves(ctx, rank, root, leaves),
{
    assert forall|a: u64| #[trigger]
        leaves.contains(a) <==> reaches(ctx, rank, root, a) && is_leaf(ctx, rank, a) by {
        if reaches(ctx, rank, root, a) && is_leaf(ctx, rank, a) {
            let path = choose|path: Seq<u64>| #[trigger] is_path(ctx, rank, root, a, path);
            lemma_all_visited(ctx, rank, root, visited, leaves, path, path.len() - 1);
            assert(is_done(ctx, rank, Seq::empty(), visited, leaves, a));
        }
        if leaves.contains(a) {
            let i = leaves.index_of(a);
            assert(visited.contains(leaves[i]));
        }
    }
}

// ── chunks ─────────────────────────────────────────────────────────────────

/// Entry `i` of a leaf: where the chunk stands, from the key, and where its bytes are,
/// from the child.
pub open spec fn entry(node: NodeView, i: int) -> ChunkRecordView {
    ChunkRecordView {
        size: node.chunk_keys[i].size,
        filter_mask: node.chunk_keys[i].filter_mask,
        offset: node.chunk_keys[i].offset,
        address: node.children[i],
    }
}

/// The entries of the leaves, one leaf after the other.
pub open spec fn entries(ctx: CtxView, rank: nat, leaves: Seq<u64>) -> Seq<ChunkRecordView>
    decreases leaves.len(),
{
    if leaves.len() == 0 {
        Seq::empty()
    } else {
        let node = node_at(ctx, leaves.last(), rank)->Ok_0;
        entries(ctx, rank, leaves.drop_last()) + Seq::new(
            node.children.len(),
            |i: int| entry(node, i),
        )
    }
}

proof fn lemma_keys_and_children(
    b: Seq<u8>,
    p: int,
    n: nat,
    sizes: Sizes,
    rank: nat,
    keys: Seq<ChunkKeyView>,
    children: Seq<u64>,
)
    requires
        keys.len() == children.len(),
    ensures
        chunk_entries_at(b, p, n, sizes, rank, keys, children) matches Ok(((ks, cs), _))
            ==> ks.len() == cs.len() == keys.len() + n,
    decreases n,
{
    if n > 0 {
        match crate::btree1::chunk_key_at(b, p, rank) {
            Ok((key, q)) => {
                match crate::cursor::address_required_at(b, q, sizes, "B-tree child"@) {
                    Ok((child, q2)) => {
                        lemma_keys_and_children(
                            b,
                            q2,
                            (n - 1) as nat,
                            sizes,
                            rank,
                            keys.push(key),
                            children.push(child),
                        );
                    },
                    Err(_) => {},
                }
            },
            Err(_) => {},
        }
    }
}

/// In a node of a chunk index every child has its key.
pub proof fn every_chunk_has_its_key(ctx: CtxView, address: u64, rank: nat)
    requires
        node_at(ctx, address, rank) is Ok,
        node_at(ctx, address, rank)->Ok_0.node_type == 1,
    ensures
        node_at(ctx, address, rank)->Ok_0.chunk_keys.len() == node_at(
            ctx,
            address,
            rank,
        )->Ok_0.children.len(),
{
    let sizes = ctx.sizes();
    let header_len = 8 + 2 * sizes.offset;
    let header = ctx.fetch(address, header_len)->Ok_0;
    let n = crate::cursor::u16_in(header, 6) as nat;
    let body_address = ((address + header_len) % 0x1_0000_0000_0000_0000) as u64;
    let body_len = (n + 1) * crate::btree1::key_len(header[4], sizes, rank) + n * sizes.offset;
    let body = ctx.fetch(body_address, body_len)->Ok_0;
    lemma_keys_and_children(body, 0, n, sizes, rank, Seq::empty(), Seq::empty());
}

proof fn lemma_chunk_walk(
    ctx: CtxView,
    rank: nat,
    root: u64,
    stack: Seq<u64>,
    visited: Set<u64>,
    count: nat,
    out: Seq<ChunkRecordView>,
    leaves: Seq<u64>,
) -> (all: (Set<u64>, Seq<u64>))
    requires
        chunk_walk(ctx, rank, stack, visited, count, out) is Ok,
        is_under_way(ctx, rank, root, stack, visited, leaves),
        out == entries(ctx, rank, leaves),
    ensures
        is_under_way(ctx, rank, root, Seq::empty(), all.0, all.1),
        visited.subset_of(all.0),
        forall|i: int| 0 <= i < stack.len() ==> all.0.contains(#[trigger] stack[i]),
        chunk_walk(ctx, rank, stack, visited, count, out)->Ok_0 == entries(ctx, rank, all.1),
    decreases MAX_NODES + 1 - count, stack.len(),
{
    if stack.len() == 0 {
        assert(stack =~= Seq::empty());
        (visited, leaves)
    } else {
        let x = stack.last();
        let rest = stack.drop_last();
        let all = if visited.contains(x) {
            lemma_skip(ctx, rank, root, stack, visited, leaves);
            lemma_chunk_walk(ctx, rank, root, rest, visited, count, out, leaves)
        } else {
            let node = node_at(ctx, x, rank)->Ok_0;
            let seen = visited.insert(x);
            let next = if node.level == 0 {
                lemma_leaf(ctx, rank, root, stack, visited, leaves);
                every_chunk_has_its_key(ctx, x, rank);
                let more = leaves.push(x);
                assert(more.drop_last() =~= leaves);
                assert(leaf_records(node, out) =~= entries(ctx, rank, more));
                lemma_chunk_walk(
                    ctx,
                    rank,
                    root,
                    rest,
                    seen,
                    count + 1,
                    leaf_records(node, out),
                    more,
                )
            } else {
                lemma_internal(ctx, rank, root, stack, visited, leaves);
                let below = rest + node.children;
                let next = lemma_chunk_walk(
                    ctx,
                    rank,
                    root,
                    below,
                    seen,
                    count + 1,
                    out,
                    leaves,
                );
                assert forall|i: int| 0 <= i < rest.len() implies next.0.contains(
                    #[trigger] rest[i],
                ) by {
                    assert(below[i] == rest[i]);
                }
                next
            };
            assert(seen.contains(x));
            next
        };
        assert forall|i: int| 0 <= i < stack.len() implies all.0.contains(
            #[trigger] stack[i],
        ) by {
            if i < rest.len() {
                assert(rest[i] == stack[i]);
            }
        }
        all
    }
}

/// Reading a chunk index visits every leaf that its root leads to, each once, and lists
/// every entry of each: nothing is left out, nothing comes twice, nothing is made up.
pub proof fn a_chunk_index_lists_the_entries_of_every_leaf(ctx: CtxView, rank: nat, root: u64) -> (
leaves: Seq<u64>)
    requires
        chunk_walk(ctx, rank, seq![root], Set::empty(), 0, Seq::empty()) is Ok,
    ensures
        are_the_leaves(ctx, rank, root, leaves),
        chunk_walk(ctx, rank, seq![root], Set::empty(), 0, Seq::empty())->Ok_0 == entries(
            ctx,
            rank,
            leaves,
        ),
{
    lemma_start(ctx, rank, root);
    let all = lemma_chunk_walk(
        ctx,
        rank,
        root,
        seq![root],
        Set::empty(),
        0,
        Seq::empty(),
        Seq::empty(),
    );
    assert(seq![root][0] == root);
    lemma_leaves(ctx, rank, root, all.0, all.1);
    all.1
}

proof fn lemma_entry_listed(ctx: CtxView, rank: nat, leaves: Seq<u64>, a: u64, i: int)
    requires
        leaves.contains(a),
        0 <= i < node_at(ctx, a, rank)->Ok_0.children.len(),
    ensures
        entries(ctx, rank, leaves).contains(entry(node_at(ctx, a, rank)->Ok_0, i)),
    decreases leaves.len(),
{
    let node = node_at(ctx, leaves.last(), rank)->Ok_0;
    let front = entries(ctx, rank, leaves.drop_last());
    let all = entries(ctx, rank, leaves);
    if leaves.last() == a {
        assert(all[front.len() + i] == entry(node, i));
    } else {
        let k = leaves.index_of(a);
        assert(leaves.drop_last()[k] == a);
        lemma_entry_listed(ctx, rank, leaves.drop_last(), a, i);
        let k = front.index_of(entry(node_at(ctx, a, rank)->Ok_0, i));
        assert(all[k] == front[k]);
    }
}

/// Every entry of every leaf that the root leads to is among the records that reading
/// the index returns.
pub proof fn every_chunk_is_found(
    ctx: CtxView,
    rank: nat,
    root: u64,
    leaf: u64,
    i: int,
    r: Result<Vec<ChunkRecord>>,
    certain: bool,
)
    requires
        lists(r, chunk_walk(ctx, rank, seq![root], Set::empty(), 0, Seq::empty()), certain),
        r is Ok,
        reaches(ctx, rank, root, leaf),
        is_leaf(ctx, rank, leaf),
        0 <= i < node_at(ctx, leaf, rank)->Ok_0.children.len(),
    ensures
        views(r->Ok_0@).contains(
            ChunkRecordView {
                size: node_at(ctx, leaf, rank)->Ok_0.chunk_keys[i].size,
                filter_mask: node_at(ctx, leaf, rank)->Ok_0.chunk_keys[i].filter_mask,
                offset: node_at(ctx, leaf, rank)->Ok_0.chunk_keys[i].offset,
                address: node_at(ctx, leaf, rank)->Ok_0.children[i],
            },
        ),
{
    let found = chunk_walk(ctx, rank, seq![root], Set::empty(), 0, Seq::empty())->Ok_0;
    let leaves = a_chunk_index_lists_the_entries_of_every_leaf(ctx, rank, root);
    lemma_entry_listed(ctx, rank, leaves, leaf, i);
    let record = entry(node_at(ctx, leaf, rank)->Ok_0, i);
    let out = views(r->Ok_0@);
    lemma_order_keeps(found, out, record);
}

/// Putting records in order loses none.
pub proof fn lemma_order_keeps(
    records: Seq<ChunkRecordView>,
    out: Seq<ChunkRecordView>,
    record: ChunkRecordView,
)
    requires
        in_offset_order(records, out),
        records.contains(record),
    ensures
        out.contains(record),
{
    let order = choose|order: Seq<int>|
        #![trigger is_ranking(offsets(records), order)]
        is_ranking(offsets(records), order) && out == Seq::new(
            records.len(),
            |i: int| records[order[i]],
        );
    let k = records.index_of(record);
    lemma_ranking_lists_all(offsets(records), order, k);
    let i = choose|i: int| 0 <= i < order.len() && #[trigger] order[i] == k;
    assert(out[i] == record);
}

/// The first axis on which `a` and `b` differ, or the number of axes of the shorter.
pub open spec fn first_difference(a: Seq<u64>, b: Seq<u64>, i: int) -> int
    decreases a.len() - i,
{
    if i >= a.len() || i >= b.len() || a[i] != b[i] {
        i
    } else {
        first_difference(a, b, i + 1)
    }
}

proof fn lemma_first_difference(a: Seq<u64>, b: Seq<u64>, i: int)
    requires
        0 <= i,
        a.len() > 0,
        b.len() > 0,
    ensures
        first_difference(a, b, i + 1) == first_difference(a.skip(1), b.skip(1), i) + 1,
    decreases a.len() - i,
{
    if i < a.len() - 1 && i < b.len() - 1 {
        assert(a.skip(1)[i] == a[i + 1] && b.skip(1)[i] == b[i + 1]);
        lemma_first_difference(a, b, i + 1);
    }
}

proof fn lemma_key_less(a: Seq<u64>, b: Seq<u64>)
    requires
        a.len() == b.len(),
        key_less(a, b),
    ensures
        0 <= first_difference(a, b, 0) < a.len(),
        a[first_difference(a, b, 0)] < b[first_difference(a, b, 0)],
    decreases a.len(),
{
    if a.len() > 0 && a[0] == b[0] {
        lemma_key_less(a.skip(1), b.skip(1));
        lemma_first_difference(a, b, 0);
    }
}

/// Of two records at different offsets, the one that comes first has the smaller
/// offset along the first axis on which they differ.
pub proof fn offsets_grow_axis_by_axis(
    records: Seq<ChunkRecordView>,
    out: Seq<ChunkRecordView>,
    i: int,
    j: int,
)
    requires
        in_offset_order(records, out),
        0 <= i < j < out.len(),
        out[i].offset.len() == out[j].offset.len(),
        out[i].offset != out[j].offset,
    ensures
        ({
            let a = first_difference(out[i].offset, out[j].offset, 0);
            0 <= a < out[i].offset.len() && out[i].offset[a] < out[j].offset[a]
        }),
{
    chunks_come_in_offset_order(records, out, i, j);
    if !key_less(out[i].offset, out[j].offset) {
        lemma_key_less_total(out[i].offset, out[j].offset);
    }
    lemma_key_less(out[i].offset, out[j].offset);
}

// ── groups ─────────────────────────────────────────────────────────────────

/// The children of the leaves, one leaf after the other.
pub open spec fn listed(ctx: CtxView, leaves: Seq<u64>) -> Seq<u64>
    decreases leaves.len(),
{
    if leaves.len() == 0 {
        Seq::empty()
    } else {
        listed(ctx, leaves.drop_last()) + node_at(ctx, leaves.last(), 0)->Ok_0.children
    }
}

proof fn lemma_group_walk(
    ctx: CtxView,
    root: u64,
    stack: Seq<u64>,
    visited: Set<u64>,
    count: nat,
    out: Seq<u64>,
    leaves: Seq<u64>,
) -> (all: (Set<u64>, Seq<u64>))
    requires
        group_walk(ctx, stack, visited, count, out) is Ok,
        is_under_way(ctx, 0, root, stack, visited, leaves),
        out == listed(ctx, leaves),
    ensures
        is_under_way(ctx, 0, root, Seq::empty(), all.0, all.1),
        visited.subset_of(all.0),
        forall|i: int| 0 <= i < stack.len() ==> all.0.contains(#[trigger] stack[i]),
        group_walk(ctx, stack, visited, count, out)->Ok_0 == listed(ctx, all.1),
    decreases MAX_NODES + 1 - count, stack.len(),
{
    if stack.len() == 0 {
        assert(stack =~= Seq::empty());
        (visited, leaves)
    } else {
        let x = stack.last();
        let rest = stack.drop_last();
        let all = if visited.contains(x) {
            lemma_skip(ctx, 0, root, stack, visited, leaves);
            lemma_group_walk(ctx, root, rest, visited, count, out, leaves)
        } else {
            let node = node_at(ctx, x, 0)->Ok_0;
            let seen = visited.insert(x);
            let next = if node.level == 0 {
                lemma_leaf(ctx, 0, root, stack, visited, leaves);
                let more = leaves.push(x);
                assert(more.drop_last() =~= leaves);
                assert(out + node.children =~= listed(ctx, more));
                lemma_group_walk(ctx, root, rest, seen, count + 1, out + node.children, more)
            } else {
                lemma_internal(ctx, 0, root, stack, visited, leaves);
                let below = rest + node.children;
                let next = lemma_group_walk(ctx, root, below, seen, count + 1, out, leaves);
                assert forall|i: int| 0 <= i < rest.len() implies next.0.contains(
                    #[trigger] rest[i],
                ) by {
                    assert(below[i] == rest[i]);
                }
                next
            };
            assert(seen.contains(x));
            next
        };
        assert forall|i: int| 0 <= i < stack.len() implies all.0.contains(
            #[trigger] stack[i],
        ) by {
            if i < rest.len() {
                assert(rest[i] == stack[i]);
            }
        }
        all
    }
}

/// Reading the index of a group visits every leaf that its root leads to, each once,
/// and lists every child of each: these are the group's symbol table nodes.
pub proof fn a_group_index_lists_the_children_of_every_leaf(ctx: CtxView, root: u64) -> (leaves:
    Seq<u64>)
    requires
        group_walk(ctx, seq![root], Set::empty(), 0, Seq::empty()) is Ok,
    ensures
        are_the_leaves(ctx, 0, root, leaves),
        group_walk(ctx, seq![root], Set::empty(), 0, Seq::empty())->Ok_0 == listed(ctx, leaves),
{
    lemma_start(ctx, 0, root);
    let all = lemma_group_walk(
        ctx,
        root,
        seq![root],
        Set::empty(),
        0,
        Seq::empty(),
        Seq::empty(),
    );
    assert(seq![root][0] == root);
    lemma_leaves(ctx, 0, root, all.0, all.1);
    all.1
}

proof fn lemma_child_listed(ctx: CtxView, leaves: Seq<u64>, a: u64, i: int)
    requires
        leaves.contains(a),
        0 <= i < node_at(ctx, a, 0)->Ok_0.children.len(),
    ensures
        listed(ctx, leaves).contains(node_at(ctx, a, 0)->Ok_0.children[i]),
    decreases leaves.len(),
{
    let node = node_at(ctx, leaves.last(), 0)->Ok_0;
    let front = listed(ctx, leaves.drop_last());
    let all = listed(ctx, leaves);
    if leaves.last() == a {
        assert(all[front.len() + i] == node.children[i]);
    } else {
        let k = leaves.index_of(a);
        assert(leaves.drop_last()[k] == a);
        lemma_child_listed(ctx, leaves.drop_last(), a, i);
        let k = front.index_of(node_at(ctx, a, 0)->Ok_0.children[i]);
        assert(all[k] == front[k]);
    }
}

/// Every child of every leaf that the root leads to is among the addresses that
/// reading the index returns.
pub proof fn every_symbol_table_node_is_found(ctx: CtxView, root: u64, leaf: u64, i: int)
    requires
        group_walk(ctx, seq![root], Set::empty(), 0, Seq::empty()) is Ok,
        reaches(ctx, 0, root, leaf),
        is_leaf(ctx, 0, leaf),
        0 <= i < node_at(ctx, leaf, 0)->Ok_0.children.len(),
    ensures
        group_walk(ctx, seq![root], Set::empty(), 0, Seq::empty())->Ok_0.contains(
            node_at(ctx, leaf, 0)->Ok_0.children[i],
        ),
{
    let leaves = a_group_index_lists_the_children_of_every_leaf(ctx, root);
    lemma_child_listed(ctx, leaves, leaf, i);
}

// ── a node in the file ─────────────────────────────────────────────────────

/// The start of a node: its signature, what it indexes, how high it stands, how many
/// entries it uses, and its neighbours.
pub open spec fn node_head(
    node_type: u8,
    level: u8,
    n: nat,
    left: Option<u64>,
    right: Option<u64>,
    sizes: Sizes,
) -> Seq<u8> {
    seq![0x54u8, 0x52u8, 0x45u8, 0x45u8] + (seq![node_type] + (seq![level] + (le(n, 2) + (address(
        left,
        sizes,
    ) + address(right, sizes)))))
}

/// Offsets, each in eight bytes.
pub open spec fn offsets_written(offsets: Seq<u64>) -> Seq<u8>
    decreases offsets.len(),
{
    if offsets.len() == 0 {
        Seq::empty()
    } else {
        le(offsets[0] as nat, 8) + offsets_written(offsets.skip(1))
    }
}

/// The key of a chunk: its size in the file, the filters it left out, where it stands,
/// and a zero for the axis of the bytes of an element.
pub open spec fn key_written(key: ChunkKeyView) -> Seq<u8> {
    le(key.size as nat, 4) + (le(key.filter_mask as nat, 4) + (offsets_written(key.offset) + le(
        0,
        8,
    )))
}

/// The entries of a chunk node: each key, and the child behind it.
pub open spec fn chunk_entries_written(
    keys: Seq<ChunkKeyView>,
    children: Seq<u64>,
    sizes: Sizes,
) -> Seq<u8>
    decreases children.len(),
{
    if children.len() == 0 {
        Seq::empty()
    } else {
        key_written(keys[0]) + (address(Some(children[0]), sizes) + chunk_entries_written(
            keys.skip(1),
            children.skip(1),
            sizes,
        ))
    }
}

/// The entries of a group node: each name's place in the heap, and the child behind it.
pub open spec fn group_entries_written(
    names: Seq<u64>,
    children: Seq<u64>,
    sizes: Sizes,
) -> Seq<u8>
    decreases children.len(),
{
    if children.len() == 0 {
        Seq::empty()
    } else {
        le(names[0] as nat, sizes.length as nat) + (address(Some(children[0]), sizes)
            + group_entries_written(names.skip(1), children.skip(1), sizes))
    }
}

proof fn lemma_offsets(b: Seq<u8>, p: int, offsets: Seq<u64>, out: Seq<u64>)
    requires
        holds(b, p, offsets_written(offsets)),
    ensures
        u64s_at(b, p, offsets.len(), out) == Parse::<Seq<u64>>::Ok(
            (out + offsets, p + 8 * offsets.len()),
        ),
        offsets_written(offsets).len() == 8 * offsets.len(),
    decreases offsets.len(),
{
    if offsets.len() > 0 {
        let rest = offsets_written(offsets.skip(1));
        let x = le(offsets[0] as nat, 8);
        lemma_le_len(offsets[0] as nat, 8);
        lemma_holds_both(b, p, x, rest);
        lemma_holds_u64(b, p, offsets[0] as nat);
        let more = out.push(offsets[0]);
        lemma_offsets(b, p + 8, offsets.skip(1), more);
        assert(more + offsets.skip(1) =~= out + offsets);
    } else {
        assert(out + offsets =~= out);
    }
}

proof fn lemma_key(b: Seq<u8>, p: int, key: ChunkKeyView)
    requires
        holds(b, p, key_written(key)),
    ensures
        chunk_key_at(b, p, key.offset.len()) == Parse::<ChunkKeyView>::Ok(
            (key, p + 16 + 8 * key.offset.len()),
        ),
        key_written(key).len() == 16 + 8 * key.offset.len(),
{
    let t = offsets_written(key.offset);
    lemma_le_len(key.size as nat, 4);
    lemma_le_len(key.filter_mask as nat, 4);
    lemma_le_len(0, 8);
    lemma_holds_both(b, p, le(key.size as nat, 4), le(key.filter_mask as nat, 4) + (t + le(0, 8)));
    lemma_holds_u32(b, p, key.size as nat);
    lemma_holds_both(b, p + 4, le(key.filter_mask as nat, 4), t + le(0, 8));
    lemma_holds_u32(b, p + 4, key.filter_mask as nat);
    lemma_holds_both(b, p + 8, t, le(0, 8));
    lemma_offsets(b, p + 8, key.offset, Seq::empty());
    assert(Seq::<u64>::empty() + key.offset =~= key.offset);
    lemma_holds_taken(b, p + 8 + t.len(), le(0, 8));
}

/// The addresses of the children can be written.
pub open spec fn all_addressable(children: Seq<u64>, sizes: Sizes) -> bool {
    0 < sizes.offset <= 8 && forall|i: int|
        0 <= i < children.len() ==> addressable(Some(#[trigger] children[i]), sizes)
}

proof fn lemma_addressable_skip(children: Seq<u64>, sizes: Sizes)
    requires
        children.len() > 0,
        all_addressable(children, sizes),
    ensures
        addressable(Some(children[0]), sizes),
        all_addressable(children.skip(1), sizes),
{
    let rest = children.skip(1);
    assert forall|i: int| 0 <= i < rest.len() implies addressable(
        Some(#[trigger] rest[i]),
        sizes,
    ) by {
        assert(addressable(Some(children[i + 1]), sizes));
    }
}

proof fn lemma_chunk_entries(
    b: Seq<u8>,
    p: int,
    sizes: Sizes,
    rank: nat,
    keys: Seq<ChunkKeyView>,
    children: Seq<u64>,
    ks: Seq<ChunkKeyView>,
    cs: Seq<u64>,
)
    requires
        keys.len() == children.len(),
        all_addressable(children, sizes),
        forall|i: int| 0 <= i < keys.len() ==> (#[trigger] keys[i]).offset.len() == rank,
        holds(b, p, chunk_entries_written(keys, children, sizes)),
    ensures
        chunk_entries_at(b, p, children.len(), sizes, rank, ks, cs) == Parse::<
            (Seq<ChunkKeyView>, Seq<u64>),
        >::Ok(
            (
                (ks + keys, cs + children),
                p + chunk_entries_written(keys, children, sizes).len(),
            ),
        ),
        chunk_entries_written(keys, children, sizes).len() == children.len() * (16 + 8 * rank
            + sizes.offset),
    decreases children.len(),
{
    if children.len() > 0 {
        let tail = chunk_entries_written(keys.skip(1), children.skip(1), sizes);
        let child = address(Some(children[0]), sizes);
        assert(keys[0].offset.len() == rank);
        lemma_addressable_skip(children, sizes);
        lemma_holds_both(b, p, key_written(keys[0]), child + tail);
        lemma_key(b, p, keys[0]);
        let p1 = p + key_written(keys[0]).len();
        lemma_holds_both(b, p1, child, tail);
        lemma_holds_address(b, p1, Some(children[0]), sizes);
        assert(address_required_at(b, p1, sizes, "B-tree child"@) == Parse::<u64>::Ok(
            (children[0], p1 + sizes.offset),
        ));
        let (k2, c2) = (ks.push(keys[0]), cs.push(children[0]));
        assert forall|i: int| 0 <= i < keys.skip(1).len() implies (#[trigger] keys.skip(
            1,
        )[i]).offset.len() == rank by {
            assert(keys[i + 1].offset.len() == rank);
        }
        lemma_chunk_entries(
            b,
            p1 + sizes.offset,
            sizes,
            rank,
            keys.skip(1),
            children.skip(1),
            k2,
            c2,
        );
        assert(k2 + keys.skip(1) =~= ks + keys);
        assert(c2 + children.skip(1) =~= cs + children);
        let (n, w) = (children.len() as int, 16 + 8 * rank + sizes.offset);
        assert(n * w == (n - 1) * w + w) by (nonlinear_arith);
    } else {
        assert(ks + keys =~= ks);
        assert(cs + children =~= cs);
        assert(0 * (16 + 8 * rank + sizes.offset) == 0);
    }
}

proof fn lemma_group_entries(
    b: Seq<u8>,
    p: int,
    sizes: Sizes,
    names: Seq<u64>,
    children: Seq<u64>,
    cs: Seq<u64>,
)
    requires
        names.len() == children.len(),
        all_addressable(children, sizes),
        holds(b, p, group_entries_written(names, children, sizes)),
    ensures
        group_entries_at(b, p, children.len(), sizes, cs) == Parse::<Seq<u64>>::Ok(
            (cs + children, p + group_entries_written(names, children, sizes).len()),
        ),
        group_entries_written(names, children, sizes).len() == children.len() * (sizes.length
            + sizes.offset),
    decreases children.len(),
{
    if children.len() > 0 {
        let tail = group_entries_written(names.skip(1), children.skip(1), sizes);
        let child = address(Some(children[0]), sizes);
        let name = le(names[0] as nat, sizes.length as nat);
        lemma_addressable_skip(children, sizes);
        lemma_le_len(names[0] as nat, sizes.length as nat);
        lemma_holds_both(b, p, name, child + tail);
        lemma_holds_taken(b, p, name);
        let p1 = p + sizes.length;
        lemma_holds_both(b, p1, child, tail);
        lemma_holds_address(b, p1, Some(children[0]), sizes);
        assert(address_required_at(b, p1, sizes, "B-tree child"@) == Parse::<u64>::Ok(
            (children[0], p1 + sizes.offset),
        ));
        let c2 = cs.push(children[0]);
        lemma_group_entries(
            b,
            p1 + sizes.offset,
            sizes,
            names.skip(1),
            children.skip(1),
            c2,
        );
        assert(c2 + children.skip(1) =~= cs + children);
        let (n, w) = (children.len() as int, sizes.length + sizes.offset);
        assert(n * w == (n - 1) * w + w) by (nonlinear_arith);
    } else {
        assert(cs + children =~= cs);
        assert(0 * (sizes.length + sizes.offset) == 0);
    }
}

proof fn lemma_head(
    node_type: u8,
    level: u8,
    n: nat,
    left: Option<u64>,
    right: Option<u64>,
    sizes: Sizes,
)
    requires
        n <= u16::MAX,
        addressable(left, sizes),
        addressable(right, sizes),
    ensures
        ({
            let h = node_head(node_type, level, n, left, right, sizes);
            &&& h.len() == 8 + 2 * sizes.offset
            &&& h.take(4) == seq![0x54u8, 0x52u8, 0x45u8, 0x45u8]
            &&& h[4] == node_type
            &&& h[5] == level
            &&& crate::cursor::u16_in(h, 6) == n
            &&& crate::btree1::siblings_at(h, sizes) is Ok
        }),
{
    let h = node_head(node_type, level, n, left, right, sizes);
    let (a, z) = (address(left, sizes), address(right, sizes));
    assert(h.subrange(0, h.len() as int) =~= h);
    assert(holds(h, 0, h));
    let t3 = le(n, 2) + (a + z);
    let t2 = seq![level] + t3;
    let sig = seq![0x54u8, 0x52u8, 0x45u8, 0x45u8];
    lemma_holds_both(h, 0, sig, seq![node_type] + t2);
    lemma_holds_both(h, 4, seq![node_type], t2);
    lemma_holds_one(h, 4, node_type);
    lemma_holds_both(h, 5, seq![level], t3);
    lemma_holds_one(h, 5, level);
    lemma_le_len(n, 2);
    lemma_holds_both(h, 6, le(n, 2), a + z);
    lemma_holds_u16(h, 6, n);
    lemma_holds_both(h, 8, a, z);
    lemma_holds_address(h, 8, left, sizes);
    lemma_holds_address(h, 8 + sizes.offset, right, sizes);
    assert(h.take(4) =~= h.subrange(0, 4));
}

/// A node of a chunk index comes back as it was written.
pub proof fn a_chunk_node_reads_as_it_was_written(
    ctx: CtxView,
    at: u64,
    level: u8,
    rank: nat,
    keys: Seq<ChunkKeyView>,
    children: Seq<u64>,
    end: Seq<u8>,
    left: Option<u64>,
    right: Option<u64>,
)
    requires
        children.len() <= u16::MAX,
        keys.len() == children.len(),
        all_addressable(children, ctx.sizes()),
        addressable(left, ctx.sizes()),
        addressable(right, ctx.sizes()),
        forall|i: int| 0 <= i < keys.len() ==> (#[trigger] keys[i]).offset.len() == rank,
        end.len() == 16 + 8 * rank,
        stands_at(
            ctx,
            at,
            node_head(1, level, children.len(), left, right, ctx.sizes()) + (
            chunk_entries_written(keys, children, ctx.sizes()) + end),
        ),
    ensures
        node_at(ctx, at, rank) == std::result::Result::<NodeView, ErrorView>::Ok(
            NodeView { node_type: 1, level, children, chunk_keys: keys },
        ),
{
    let sizes = ctx.sizes();
    let head = node_head(1, level, children.len(), left, right, sizes);
    let entries = chunk_entries_written(keys, children, sizes);
    let body = entries + end;
    lemma_head(1, level, children.len(), left, right, sizes);
    lemma_stands_both(ctx, at, head, body);
    lemma_stands(ctx, at, head);
    let next = (at + head.len()) as u64;
    lemma_stands(ctx, next, body);
    assert(body.subrange(0, entries.len() as int) =~= entries);
    assert(holds(body, 0, entries));
    lemma_chunk_entries(body, 0, sizes, rank, keys, children, Seq::empty(), Seq::empty());
    assert(Seq::<ChunkKeyView>::empty() + keys =~= keys);
    assert(Seq::<u64>::empty() + children =~= children);
    let n = children.len() as int;
    let k = 8 + 8 * (rank + 1);
    assert((n + 1) * k + n * sizes.offset == n * (16 + 8 * rank + sizes.offset) + (16 + 8 * rank))
        by (nonlinear_arith)
        requires
            k == 16 + 8 * rank,
    ;
    assert(crate::btree1::TREE_SIGNATURE@ =~= seq![0x54u8, 0x52u8, 0x45u8, 0x45u8]);
}

/// A node of a group's index comes back as it was written.
pub proof fn a_group_node_reads_as_it_was_written(
    ctx: CtxView,
    at: u64,
    level: u8,
    rank: nat,
    names: Seq<u64>,
    children: Seq<u64>,
    end: Seq<u8>,
    left: Option<u64>,
    right: Option<u64>,
)
    requires
        children.len() <= u16::MAX,
        names.len() == children.len(),
        all_addressable(children, ctx.sizes()),
        addressable(left, ctx.sizes()),
        addressable(right, ctx.sizes()),
        end.len() == ctx.sizes().length,
        stands_at(
            ctx,
            at,
            node_head(0, level, children.len(), left, right, ctx.sizes()) + (
            group_entries_written(names, children, ctx.sizes()) + end),
        ),
    ensures
        node_at(ctx, at, rank) == std::result::Result::<NodeView, ErrorView>::Ok(
            NodeView { node_type: 0, level, children, chunk_keys: Seq::empty() },
        ),
{
    let sizes = ctx.sizes();
    let head = node_head(0, level, children.len(), left, right, sizes);
    let entries = group_entries_written(names, children, sizes);
    let body = entries + end;
    lemma_head(0, level, children.len(), left, right, sizes);
    lemma_stands_both(ctx, at, head, body);
    lemma_stands(ctx, at, head);
    let next = (at + head.len()) as u64;
    lemma_stands(ctx, next, body);
    assert(body.subrange(0, entries.len() as int) =~= entries);
    assert(holds(body, 0, entries));
    lemma_group_entries(body, 0, sizes, names, children, Seq::empty());
    assert(Seq::<u64>::empty() + children =~= children);
    let n = children.len() as int;
    assert((n + 1) * sizes.length + n * sizes.offset == n * (sizes.length + sizes.offset)
        + sizes.length) by (nonlinear_arith);
    assert(crate::btree1::TREE_SIGNATURE@ =~= seq![0x54u8, 0x52u8, 0x45u8, 0x45u8]);
}

} // verus!
