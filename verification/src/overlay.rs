//! Laying stored blocks over a selection.
//!
//! A stored block holds the values of a rectangular part of an array, such as a
//! chunk. Of a block, a selection takes the rows of what the two have in common.

#[allow(unused_imports)]
use vstd::arithmetic::div_mod::{lemma_fundamental_div_mod, lemma_small_mod};
use vstd::prelude::*;
use vstd::slice::slice_subrange;

#[allow(unused_imports)]
use crate::read::{
    every_element_has_an_index, every_index_has_an_element, inside, integers, ravel,
    selected_index, unravel, SlabView,
};
use crate::read::{index_of, number_of, Hyperslab};
use crate::shape::checked_product;
#[allow(unused_imports)]
use crate::shape::{
    lemma_product_monotonic, lemma_product_prefix, product,
};

verus! {

/// A block of shape `dims` at `offset` holds the element at `index`.
pub open spec fn covers(offset: Seq<u64>, dims: Seq<u64>, index: Seq<int>) -> bool {
    &&& offset.len() == index.len()
    &&& dims.len() == index.len()
    &&& forall|a: int|
        0 <= a < index.len() ==> offset[a] <= #[trigger] index[a] < offset[a] + dims[a]
}

/// The index within a block at `offset`.
pub open spec fn local(index: Seq<int>, offset: Seq<u64>) -> Seq<int> {
    Seq::new(index.len(), |a: int| index[a] - offset[a])
}

/// Where `data` holds byte `b` of a selection. It holds the values of a block of
/// shape `dims` at `offset`, from the one with the number `first` on.
pub open spec fn place_of(
    slab: SlabView,
    offset: Seq<u64>,
    dims: Seq<u64>,
    width: nat,
    first: int,
    b: int,
) -> int {
    let index = selected_index(slab, b / width as int);
    (ravel(local(index, offset), dims) - first) * width + b % width as int
}

/// The bytes of a selection with those of a stored block laid over them.
pub open spec fn overlaid(
    out: Seq<u8>,
    slab: SlabView,
    offset: Seq<u64>,
    dims: Seq<u64>,
    width: nat,
    first: int,
    data: Seq<u8>,
) -> Seq<u8> {
    Seq::new(
        out.len(),
        |b: int|
            if covers(offset, dims, selected_index(slab, b / width as int)) {
                data[place_of(slab, offset, dims, width, first, b)]
            } else {
                out[b]
            },
    )
}

/// The first index along an axis that both a selection and a block hold.
pub open spec fn overlap_start(slab: SlabView, offset: Seq<u64>, a: int) -> int {
    if offset[a] > slab.start[a] {
        offset[a] as int
    } else {
        slab.start[a] as int
    }
}

/// The index behind the last along an axis that both a selection and a block
/// hold.
pub open spec fn overlap_end(slab: SlabView, offset: Seq<u64>, dims: Seq<u64>, a: int) -> int {
    if offset[a] + dims[a] < slab.start[a] + slab.count[a] {
        offset[a] + dims[a]
    } else {
        slab.start[a] + slab.count[a]
    }
}

/// A selection takes something of a block.
pub open spec fn meets(slab: SlabView, offset: Seq<u64>, dims: Seq<u64>) -> bool {
    &&& offset.len() == slab.start.len()
    &&& dims.len() == slab.start.len()
    &&& forall|a: int|
        0 <= a < slab.start.len() ==> #[trigger] overlap_start(slab, offset, a) < overlap_end(
            slab,
            offset,
            dims,
            a,
        )
}

/// What a selection and a block have in common.
pub open spec fn overlap(slab: SlabView, offset: Seq<u64>, dims: Seq<u64>) -> SlabView {
    SlabView {
        start: Seq::new(slab.start.len(), |a: int| overlap_start(slab, offset, a) as u64),
        count: Seq::new(
            slab.start.len(),
            |a: int| (overlap_end(slab, offset, dims, a) - overlap_start(slab, offset, a)) as u64,
        ),
    }
}

/// A selection whose ends can all be counted.
pub open spec fn countable(slab: SlabView) -> bool {
    &&& slab.start.len() == slab.count.len()
    &&& forall|a: int|
        0 <= a < slab.start.len() ==> #[trigger] slab.start[a] + slab.count[a] <= u64::MAX
}

/// What a selection and a block have in common, if anything.
pub fn find_overlap(slab: &Hyperslab, offset: &[u64], dims: &[u64]) -> (r: Option<Hyperslab>)
    requires
        countable(slab@),
    ensures
        match r {
            Some(common) => meets(slab@, offset@, dims@) && common@ == overlap(
                slab@,
                offset@,
                dims@,
            ),
            None => !meets(slab@, offset@, dims@),
        },
{
    if offset.len() != slab.start.len() || dims.len() != slab.start.len() {
        return None;
    }
    let ghost want = overlap(slab@, offset@, dims@);
    let mut start: Vec<u64> = Vec::new();
    let mut count: Vec<u64> = Vec::new();
    while start.len() < offset.len()
        invariant
            countable(slab@),
            offset@.len() == slab@.start.len() == slab@.count.len(),
            dims@.len() == slab@.start.len(),
            want == overlap(slab@, offset@, dims@),
            start@.len() == count@.len() <= offset@.len(),
            start@ == want.start.take(start@.len() as int),
            count@ == want.count.take(start@.len() as int),
            forall|a: int|
                0 <= a < start@.len() ==> #[trigger] overlap_start(slab@, offset@, a)
                    < overlap_end(slab@, offset@, dims@, a),
        decreases offset@.len() - start@.len(),
    {
        let a: usize = start.len();
        assert(slab@.start[a as int] + slab@.count[a as int] <= u64::MAX);
        let end: u64 = slab.start[a] + slab.count[a];
        let low: u64 = if offset[a] > slab.start[a] { offset[a] } else { slab.start[a] };
        let high: u64 = match offset[a].checked_add(dims[a]) {
            Some(e) => if e < end { e } else { end },
            None => end,
        };
        if low >= high {
            assert(overlap_start(slab@, offset@, a as int) >= overlap_end(
                slab@,
                offset@,
                dims@,
                a as int,
            ));
            return None;
        }
        start.push(low);
        count.push(high - low);
        assert(start@ =~= want.start.take(start@.len() as int));
        assert(count@ =~= want.count.take(start@.len() as int));
    }
    assert(start@ =~= want.start);
    assert(count@ =~= want.count);
    Some(Hyperslab { start, count })
}

/// Whether a selection takes something of a block.
pub fn touches(slab: &Hyperslab, offset: &[u64], dims: &[u64]) -> (r: bool)
    requires
        countable(slab@),
    ensures
        r == meets(slab@, offset@, dims@),
{
    find_overlap(slab, offset, dims).is_some()
}

/// Copy `n` bytes of `data` from `from` on to `out` at `at`.
fn copy_run(out: &mut Vec<u8>, at: usize, data: &[u8], from: usize, n: usize)
    requires
        at + n <= old(out)@.len(),
        from + n <= data@.len(),
    ensures
        final(out)@ == Seq::new(
            old(out)@.len(),
            |b: int|
                if at <= b < at + n {
                    data@[from + (b - at)]
                } else {
                    old(out)@[b]
                },
        ),
{
    let ghost before = out@;
    let mut i: usize = 0;
    while i < n
        invariant
            i <= n,
            at + n <= out@.len() == before.len(),
            from + n <= data@.len(),
            forall|b: int| 0 <= b < out@.len() ==> #[trigger] out@[b] == if at <= b < at + i {
                data@[from + (b - at)]
            } else {
                before[b]
            },
        decreases n - i,
    {
        assert(from + n <= data.len());
        assert(at + n <= out.len());
        out[at + i] = data[from + i];
        i = i + 1;
    }
    assert(out@ =~= Seq::new(
        before.len(),
        |b: int|
            if at <= b < at + n {
                data@[from + (b - at)]
            } else {
                before[b]
            },
    ));
}

// ── rows ───────────────────────────────────────────────────────────────────

/// The number of the row of a block that the element at `index` lies in.
spec fn row_of(index: Seq<int>, block: SlabView) -> int {
    ravel(local(index, block.start).drop_last(), block.count.drop_last())
}

/// The index of element number `j` of row number `t` of a block.
spec fn row_index(block: SlabView, t: int, j: int) -> Seq<int> {
    let outer = unravel(t, block.count.drop_last());
    Seq::new(
        block.start.len(),
        |a: int|
            block.start[a] + if a < outer.len() {
                outer[a]
            } else {
                j
            },
    )
}

/// Going along a row goes up by one in every array that holds it.
proof fn lemma_along_a_row(block: SlabView, t: int, j: int, offset: Seq<u64>, dims: Seq<u64>)
    requires
        block.start.len() == block.count.len() == offset.len() == dims.len(),
        block.start.len() > 0,
        0 <= t < product(block.count.drop_last()),
    ensures
        ravel(local(row_index(block, t, j), offset), dims) == ravel(
            local(row_index(block, t, 0), offset),
            dims,
        ) + j,
{
    every_element_has_an_index(t, block.count.drop_last());
    let x = local(row_index(block, t, j), offset);
    let y = local(row_index(block, t, 0), offset);
    assert(x.drop_last() =~= y.drop_last());
}

/// An element of a row lies in the block, in that row.
proof fn lemma_row_index(block: SlabView, t: int, j: int)
    requires
        block.start.len() == block.count.len(),
        block.start.len() > 0,
        0 <= t < product(block.count.drop_last()),
        0 <= j < block.count.last(),
    ensures
        covers(block.start, block.count, row_index(block, t, j)),
        row_of(row_index(block, t, j), block) == t,
{
    let outer = block.count.drop_last();
    every_element_has_an_index(t, outer);
    let index = row_index(block, t, j);
    assert forall|a: int| 0 <= a < index.len() implies block.start[a] <= #[trigger] index[a]
        < block.start[a] + block.count[a] by {
        if a < outer.len() {
            assert(0 <= unravel(t, outer)[a] < outer[a]);
        }
    }
    assert(local(index, block.start).drop_last() =~= unravel(t, outer));
}

/// Every element of a block is an element of its row.
proof fn lemma_in_its_row(block: SlabView, index: Seq<int>)
    requires
        block.start.len() == block.count.len(),
        block.start.len() > 0,
        covers(block.start, block.count, index),
    ensures
        0 <= row_of(index, block) < product(block.count.drop_last()),
        index == row_index(block, row_of(index, block), index.last() - block.start.last()),
        0 <= index.last() - block.start.last() < block.count.last(),
{
    let outer = block.count.drop_last();
    let inner = local(index, block.start).drop_last();
    assert(inside(inner, outer)) by {
        assert forall|a: int| 0 <= a < outer.len() implies 0 <= #[trigger] inner[a] < outer[a] by {
            assert(block.start[a] <= index[a] < block.start[a] + block.count[a]);
        }
    }
    every_index_has_an_element(inner, outer);
    assert(block.start[index.len() - 1] <= index[index.len() - 1]);
    assert(index =~= row_index(block, row_of(index, block), index.last() - block.start.last()));
}

/// The elements that a selection and a block have in common are those of their
/// overlap.
pub proof fn lemma_overlap(slab: SlabView, offset: Seq<u64>, dims: Seq<u64>, index: Seq<int>)
    requires
        countable(slab),
    ensures
        covers(offset, dims, index) && covers(slab.start, slab.count, index) ==> meets(
            slab,
            offset,
            dims,
        ),
        meets(slab, offset, dims) ==> {
            let common = overlap(slab, offset, dims);
            covers(common.start, common.count, index) <==> covers(offset, dims, index) && covers(
                slab.start,
                slab.count,
                index,
            )
        },
{
    if covers(offset, dims, index) && covers(slab.start, slab.count, index) {
        assert forall|a: int| 0 <= a < slab.start.len() implies #[trigger] overlap_start(
            slab,
            offset,
            a,
        ) < overlap_end(slab, offset, dims, a) by {
            assert(offset[a] <= index[a] < offset[a] + dims[a]);
            assert(slab.start[a] <= index[a] < slab.start[a] + slab.count[a]);
        }
    }
    if meets(slab, offset, dims) {
        let common = overlap(slab, offset, dims);
        assert forall|a: int| 0 <= a < slab.start.len() implies {
            &&& #[trigger] common.start[a] == overlap_start(slab, offset, a)
            &&& common.start[a] + common.count[a] == overlap_end(slab, offset, dims, a)
        } by {
            assert(slab.start[a] + slab.count[a] <= u64::MAX);
            assert(overlap_start(slab, offset, a) < overlap_end(slab, offset, dims, a));
        }
        if covers(common.start, common.count, index) {
            assert forall|a: int| 0 <= a < index.len() implies {
                &&& offset[a] <= #[trigger] index[a] < offset[a] + dims[a]
                &&& slab.start[a] <= index[a] < slab.start[a] + slab.count[a]
            } by {
                assert(common.start[a] <= index[a] < common.start[a] + common.count[a]);
            }
        }
        if covers(offset, dims, index) && covers(slab.start, slab.count, index) {
            assert forall|a: int| 0 <= a < index.len() implies common.start[a]
                <= #[trigger] index[a] < common.start[a] + common.count[a] by {
                assert(offset[a] <= index[a] < offset[a] + dims[a]);
                assert(slab.start[a] <= index[a] < slab.start[a] + slab.count[a]);
            }
        }
    }
}

/// The elements of a selection are those that it covers, each once.
pub proof fn lemma_selected(slab: SlabView, k: int)
    requires
        slab.start.len() == slab.count.len(),
        0 <= k < product(slab.count),
    ensures
        covers(slab.start, slab.count, selected_index(slab, k)),
        ravel(local(selected_index(slab, k), slab.start), slab.count) == k,
{
    every_element_has_an_index(k, slab.count);
    let digits = unravel(k, slab.count);
    let index = selected_index(slab, k);
    assert(local(index, slab.start) =~= digits);
    assert forall|a: int| 0 <= a < index.len() implies slab.start[a] <= #[trigger] index[a]
        < slab.start[a] + slab.count[a] by {
        assert(0 <= digits[a] < slab.count[a]);
    }
}

/// What a selection covers is one of its elements.
pub proof fn lemma_selects(slab: SlabView, index: Seq<int>)
    requires
        slab.start.len() == slab.count.len(),
        covers(slab.start, slab.count, index),
    ensures
        0 <= ravel(local(index, slab.start), slab.count) < product(slab.count),
        selected_index(slab, ravel(local(index, slab.start), slab.count)) == index,
{
    let digits = local(index, slab.start);
    assert(inside(digits, slab.count)) by {
        assert forall|a: int| 0 <= a < digits.len() implies 0 <= #[trigger] digits[a]
            < slab.count[a] by {
            assert(slab.start[a] <= index[a] < slab.start[a] + slab.count[a]);
        }
    }
    every_index_has_an_element(digits, slab.count);
    assert(selected_index(slab, ravel(digits, slab.count)) =~= index);
}

/// `data` holds everything that a selection takes of a block, from the element
/// with the number `first` on.
pub open spec fn holds(
    slab: SlabView,
    offset: Seq<u64>,
    dims: Seq<u64>,
    width: nat,
    first: int,
    len: nat,
) -> bool {
    forall|index: Seq<int>|
        #![trigger ravel(local(index, offset), dims)]
        covers(offset, dims, index) && covers(slab.start, slab.count, index) ==> {
            let number = ravel(local(index, offset), dims);
            first <= number <= u64::MAX && (number + 1 - first) * width <= len
        }
}

/// The bytes of a selection once the first `t` rows of its overlap with a block
/// are laid over them.
spec fn overlaid_rows(
    out: Seq<u8>,
    slab: SlabView,
    offset: Seq<u64>,
    dims: Seq<u64>,
    width: nat,
    first: int,
    data: Seq<u8>,
    t: int,
) -> Seq<u8> {
    Seq::new(
        out.len(),
        |b: int|
            {
                let index = selected_index(slab, b / width as int);
                if covers(offset, dims, index) && row_of(index, overlap(slab, offset, dims)) < t {
                    data[place_of(slab, offset, dims, width, first, b)]
                } else {
                    out[b]
                }
            },
    )
}

/// Which bytes of a selection a row of the overlap takes, and where they come
/// from.
proof fn lemma_row_bytes(
    slab: SlabView,
    offset: Seq<u64>,
    dims: Seq<u64>,
    width: nat,
    first: int,
    t: int,
    b: int,
)
    requires
        width > 0,
        countable(slab),
        meets(slab, offset, dims),
        slab.start.len() > 0,
        0 <= t < product(overlap(slab, offset, dims).count.drop_last()),
        0 <= b < product(slab.count) * width,
    ensures
        ({
            let common = overlap(slab, offset, dims);
            let base = row_index(common, t, 0);
            let to = ravel(local(base, slab.start), slab.count);
            let from = ravel(local(base, offset), dims);
            let index = selected_index(slab, b / width as int);
            &&& to * width <= b < (to + common.count.last()) * width <==> (covers(
                offset,
                dims,
                index,
            ) && row_of(index, common) == t)
            &&& to * width <= b < (to + common.count.last()) * width ==> place_of(
                slab,
                offset,
                dims,
                width,
                first,
                b,
            ) == (from - first) * width + (b - to * width)
        }),
{
    let common = overlap(slab, offset, dims);
    let base = row_index(common, t, 0);
    let to = ravel(local(base, slab.start), slab.count);
    let from = ravel(local(base, offset), dims);
    let w = width as int;
    let k = b / w;
    let run = common.count.last() as int;
    lemma_fundamental_div_mod(b, w);
    assert(w * k == k * w) by (nonlinear_arith);
    let total = product(slab.count) as int;
    assert(0 <= k < total) by (nonlinear_arith)
        requires
            0 <= b < total * w,
            b == w * k + b % w,
            0 <= b % w < w,
    ;
    let index = selected_index(slab, k);
    lemma_selected(slab, k);
    lemma_overlap(slab, offset, dims, index);
    if covers(offset, dims, index) && row_of(index, common) == t {
        lemma_in_its_row(common, index);
        let j = index.last() - common.start.last();
        lemma_along_a_row(common, t, j, slab.start, slab.count);
        assert(k == to + j);
        assert(to * w <= b < (to + run) * w) by (nonlinear_arith)
            requires
                b == w * k + b % w,
                0 <= b % w < w,
                k == to + j,
                0 <= j < run,
        ;
    }
    if to * w <= b < (to + run) * w {
        let j = k - to;
        assert(0 <= j < run) by (nonlinear_arith)
            requires
                to * w <= b < (to + run) * w,
                b == w * k + b % w,
                0 <= b % w < w,
                j == k - to,
        ;
        lemma_row_index(common, t, j);
        let there = row_index(common, t, j);
        lemma_overlap(slab, offset, dims, there);
        lemma_selects(slab, there);
        lemma_along_a_row(common, t, j, slab.start, slab.count);
        assert(there == index);
        lemma_along_a_row(common, t, j, offset, dims);
        assert((from + j - first) * w + b % w == (from - first) * w + (b - to * w))
            by (nonlinear_arith)
            requires
                b == w * k + b % w,
                k == to + j,
        ;
    }
}

/// A row of the overlap fits into the selection and is held by `data`.
proof fn lemma_row_fits(
    slab: SlabView,
    offset: Seq<u64>,
    dims: Seq<u64>,
    width: nat,
    first: int,
    len: nat,
    t: int,
)
    requires
        width > 0,
        countable(slab),
        meets(slab, offset, dims),
        slab.start.len() > 0,
        holds(slab, offset, dims, width, first, len),
        0 <= t < product(overlap(slab, offset, dims).count.drop_last()),
    ensures
        ({
            let common = overlap(slab, offset, dims);
            let base = row_index(common, t, 0);
            let to = ravel(local(base, slab.start), slab.count);
            let from = ravel(local(base, offset), dims);
            let run = common.count.last();
            &&& run > 0
            &&& covers(offset, dims, base)
            &&& covers(slab.start, slab.count, base)
            &&& 0 <= to && to + run <= product(slab.count)
            &&& first <= from <= u64::MAX
            &&& (from + run - first) * width <= len
        }),
{
    let common = overlap(slab, offset, dims);
    let last = common.count.last();
    let a = slab.start.len() - 1;
    assert(last > 0) by {
        assert(slab.start[a] + slab.count[a] <= u64::MAX);
        assert(overlap_start(slab, offset, a) < overlap_end(slab, offset, dims, a));
    }
    let base = row_index(common, t, 0);
    let end = row_index(common, t, last - 1);
    lemma_row_index(common, t, 0);
    lemma_row_index(common, t, last - 1);
    lemma_overlap(slab, offset, dims, base);
    lemma_overlap(slab, offset, dims, end);
    lemma_selects(slab, base);
    lemma_selects(slab, end);
    lemma_along_a_row(common, t, last - 1, slab.start, slab.count);
    lemma_along_a_row(common, t, last - 1, offset, dims);
}

/// Lay what a block holds over the bytes of a selection.
///
/// `data` holds the values of a block of shape `dims` at `offset`, from the one
/// with the number `first` on.
pub fn overlay(
    out: &mut Vec<u8>,
    slab: &Hyperslab,
    offset: &[u64],
    dims: &[u64],
    width: usize,
    first: u64,
    data: &[u8],
)
    requires
        width > 0,
        countable(slab@),
        old(out)@.len() == product(slab@.count) * width,
        holds(slab@, offset@, dims@, width as nat, first as int, data@.len()),
    ensures
        final(out)@ == overlaid(
            old(out)@,
            slab@,
            offset@,
            dims@,
            width as nat,
            first as int,
            data@,
        ),
{
    let ghost before = out@;
    let ghost w = width as int;
    let ghost total = product(slab@.count) as int;
    proof {
        assert forall|b: int| 0 <= b < before.len() implies 0 <= #[trigger] (b / w) < total by {
            lemma_fundamental_div_mod(b, w);
            let k = b / w;
            assert(0 <= k < total) by (nonlinear_arith)
                requires
                    0 <= b < total * w,
                    b == w * k + b % w,
                    0 <= b % w < w,
            ;
        }
    }
    let common = match find_overlap(slab, offset, dims) {
        Some(c) => c,
        None => {
            proof {
                let want = overlaid(before, slab@, offset@, dims@, width as nat, first as int, data@);
                assert forall|b: int| 0 <= b < before.len() implies #[trigger] want[b]
                    == before[b] by {
                    assert(0 <= b / w < total);
                    lemma_selected(slab@, b / w);
                    lemma_overlap(slab@, offset@, dims@, selected_index(slab@, b / w));
                }
                assert(want =~= before);
            }
            return ;
        },
    };
    let rank: usize = common.start.len();
    if rank == 0 {
        proof {
            let index = Seq::<int>::empty();
            assert(covers(offset@, dims@, index));
            assert(ravel(local(index, offset@), dims@) == 0);
            assert(product(slab@.count) == 1);
            assert((0 + 1 - 0) * w == w) by (nonlinear_arith);
        }
        copy_run(out, 0, data, 0, width);
        proof {
            let want = overlaid(before, slab@, offset@, dims@, width as nat, first as int, data@);
            assert forall|b: int| 0 <= b < before.len() implies #[trigger] want[b] == out@[b] by {
                assert(b < 1 * w);
                lemma_small_mod(b as nat, w as nat);
                let index = selected_index(slab@, b / w);
                assert(index =~= Seq::<int>::empty());
                assert(ravel(local(index, offset@), dims@) == 0);
                assert((0 - 0) * w == 0) by (nonlinear_arith);
            }
            assert(want =~= out@);
        }
        return ;
    }
    let outer = slice_subrange(common.count.as_slice(), 0, rank - 1);
    let run: u64 = common.count[rank - 1];
    assert(outer@ =~= common@.count.drop_last());
    let rows: u64 = match checked_product(outer) {
        Some(n) => n,
        None => {
            proof {
                lemma_rows_countable(slab@, offset@, dims@);
                assert(product(slab@.count) <= before.len()) by (nonlinear_arith)
                    requires
                        before.len() == product(slab@.count) * width,
                        width > 0,
                ;
                assert(out.len() <= usize::MAX);
            }
            0
        },
    };
    let mut t: u64 = 0;
    proof {
        let done = overlaid_rows(
            before,
            slab@,
            offset@,
            dims@,
            width as nat,
            first as int,
            data@,
            0,
        );
        assert forall|b: int| 0 <= b < before.len() implies #[trigger] done[b] == before[b] by {
            assert(0 <= b / w < total);
            let index = selected_index(slab@, b / w);
            lemma_selected(slab@, b / w);
            lemma_overlap(slab@, offset@, dims@, index);
            if covers(offset@, dims@, index) {
                lemma_in_its_row(common@, index);
            }
        }
        assert(done =~= before);
    }
    while t < rows
        invariant
            t <= rows == product(outer@),
            w == width > 0,
            rank == slab@.start.len() == slab@.count.len() == common@.start.len(),
            rank > 0,
            countable(slab@),
            meets(slab@, offset@, dims@),
            common@ == overlap(slab@, offset@, dims@),
            outer@ == common@.count.drop_last(),
            run == common@.count.last(),
            before.len() == product(slab@.count) * width,
            holds(slab@, offset@, dims@, width as nat, first as int, data@.len()),
            out@ == overlaid_rows(
                before,
                slab@,
                offset@,
                dims@,
                width as nat,
                first as int,
                data@,
                t as int,
            ),
        decreases rows - t,
    {
        let digits = index_of(t, outer);
        let ghost base = row_index(common@, t as int, 0);
        let ghost to_number = ravel(local(base, slab@.start), slab@.count);
        let ghost from_number = ravel(local(base, offset@), dims@);
        proof {
            lemma_row_fits(
                slab@,
                offset@,
                dims@,
                width as nat,
                first as int,
                data@.len(),
                t as int,
            );
        }
        let mut there: Vec<u64> = Vec::new();
        let mut here: Vec<u64> = Vec::new();
        while there.len() < rank
            invariant
                rank == slab@.start.len() == common@.start.len() == offset@.len(),
                rank > 0,
                digits@.len() == rank - 1,
                integers(digits@) == unravel(t as int, common@.count.drop_last()),
                base == row_index(common@, t as int, 0),
                covers(offset@, dims@, base),
                covers(slab@.start, slab@.count, base),
                common.start@ == common@.start,
                there@.len() == here@.len() <= rank,
                forall|a: int|
                    0 <= a < there@.len() ==> #[trigger] there@[a] == base[a] - slab@.start[a],
                forall|a: int|
                    0 <= a < here@.len() ==> #[trigger] here@[a] == base[a] - offset@[a],
            decreases rank - there@.len(),
        {
            let a: usize = there.len();
            proof {
                assert(slab@.start[a as int] <= base[a as int] < slab@.start[a as int]
                    + slab@.count[a as int]);
                assert(offset@[a as int] <= base[a as int] < offset@[a as int] + dims@[a as int]);
                if a < rank - 1 {
                    assert(integers(digits@)[a as int] == digits@[a as int]);
                }
            }
            let digit: u64 = if a < rank - 1 { digits[a] } else { 0 };
            // How far the row stands behind the start of the selection and of
            // the block: either start may be the larger one.
            let low: u64 = common.start[a];
            proof {
                assert(base[a as int] == low + digit);
            }
            there.push(sum_less(low, digit, slab.start[a]));
            here.push(sum_less(low, digit, offset[a]));
        }
        assert(integers(there@) =~= local(base, slab@.start));
        assert(integers(here@) =~= local(base, offset@));
        proof {
            assert(product(slab@.count) <= before.len()) by (nonlinear_arith)
                requires
                    before.len() == product(slab@.count) * width,
                    width > 0,
            ;
            assert(out.len() <= usize::MAX);
            assert(data.len() <= usize::MAX);
        }
        let to: u64 = match number_of(there.as_slice(), slab.count.as_slice()) {
            Some(n) => n,
            None => 0,
        };
        let from: u64 = match number_of(here.as_slice(), dims) {
            Some(n) => n,
            None => 0,
        };
        proof {
            assert(to == to_number && from == from_number);
            assert(0 <= to * w && to * w + run * w == (to + run) * w <= before.len())
                by (nonlinear_arith)
                requires
                    to + run <= product(slab@.count),
                    before.len() == product(slab@.count) * width,
                    w == width,
                    0 <= to,
            ;
            assert(0 <= (from - first) * w && (from - first) * w + run * w == (from + run - first)
                * w) by (nonlinear_arith)
                requires
                    first <= from,
                    w >= 0,
            ;
            assert(run * w >= 0) by (nonlinear_arith)
                requires
                    run >= 0,
                    w >= 0,
            ;
            assert(to <= to * w && run <= run * w && from - first <= (from - first) * w)
                by (nonlinear_arith)
                requires
                    first <= from,
                    0 <= to,
                    0 <= run,
                    w >= 1,
            ;
        }
        let ghost rows_before = out@;
        copy_run(
            out,
            to as usize * width,
            data,
            (from - first) as usize * width,
            run as usize * width,
        );
        proof {
            let done = overlaid_rows(
                before,
                slab@,
                offset@,
                dims@,
                width as nat,
                first as int,
                data@,
                t + 1,
            );
            assert forall|b: int| 0 <= b < before.len() implies #[trigger] done[b] == out@[b] by {
                lemma_row_bytes(
                    slab@,
                    offset@,
                    dims@,
                    width as nat,
                    first as int,
                    t as int,
                    b,
                );
            }
            assert(done =~= out@);
        }
        t = t + 1;
    }
    proof {
        lemma_rows_countable(slab@, offset@, dims@);
        assert(product(slab@.count) <= before.len()) by (nonlinear_arith)
            requires
                before.len() == product(slab@.count) * width,
                width > 0,
        ;
        assert(rows == product(outer@));
        let want = overlaid(before, slab@, offset@, dims@, width as nat, first as int, data@);
        assert forall|b: int| 0 <= b < before.len() implies #[trigger] want[b] == out@[b] by {
            assert(0 <= b / w < total);
            let index = selected_index(slab@, b / w);
            lemma_selected(slab@, b / w);
            lemma_overlap(slab@, offset@, dims@, index);
            if covers(offset@, dims@, index) {
                lemma_in_its_row(common@, index);
            }
        }
        assert(want =~= out@);
    }
}

/// `a + b - c`, where only the result is known to fit.
fn sum_less(a: u64, b: u64, c: u64) -> (r: u64)
    requires
        0 <= a + b - c <= u64::MAX,
    ensures
        r == a + b - c,
{
    if a >= c {
        a - c + b
    } else {
        b - (c - a)
    }
}

/// The rows of an overlap are no more than the elements of the selection.
proof fn lemma_rows_countable(slab: SlabView, offset: Seq<u64>, dims: Seq<u64>)
    requires
        countable(slab),
        meets(slab, offset, dims),
        slab.start.len() > 0,
    ensures
        product(overlap(slab, offset, dims).count.drop_last()) <= product(slab.count),
{
    let common = overlap(slab, offset, dims);
    assert forall|a: int| 0 <= a < slab.start.len() implies 0 < #[trigger] common.count[a]
        <= slab.count[a] by {
        assert(slab.start[a] + slab.count[a] <= u64::MAX);
        assert(overlap_start(slab, offset, a) < overlap_end(slab, offset, dims, a));
    }
    lemma_product_monotonic(common.count, slab.count);
    lemma_product_prefix(common.count, slab.start.len() - 1);
    assert(common.count.take(slab.start.len() - 1) =~= common.count.drop_last());
}

} // verus!
