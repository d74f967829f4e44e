//! Where the elements of an array stand.

use vstd::prelude::*;

#[allow(unused_imports)]
use crate::overlay::{covers, lemma_selects, local};
#[allow(unused_imports)]
use crate::read::{ravel, selected_index, SlabView};
#[allow(unused_imports)]
use crate::shape::product;

verus! {

/// How many elements one step along axis `a - 1` passes over: the extents from axis
/// `a` on, multiplied.
pub open spec fn span(shape: Seq<u64>, a: int) -> int
    decreases shape.len() - a,
{
    if a >= shape.len() {
        1
    } else {
        shape[a] * span(shape, a + 1)
    }
}

/// How many elements stand before the one at `index`: each axis from `a` on steps over
/// the extents behind it.
pub open spec fn steps(index: Seq<int>, shape: Seq<u64>, a: int) -> int
    decreases shape.len() - a,
{
    if a >= shape.len() {
        0
    } else {
        index[a] * span(shape, a + 1) + steps(index, shape, a + 1)
    }
}

proof fn lemma_span_last(shape: Seq<u64>, a: int)
    requires
        0 <= a <= shape.len() - 1,
    ensures
        span(shape, a) == span(shape.drop_last(), a) * shape.last(),
    decreases shape.len() - a,
{
    let front = shape.drop_last();
    if a < shape.len() - 1 {
        lemma_span_last(shape, a + 1);
        let (x, y, z) = (shape[a] as int, span(front, a + 1), shape.last() as int);
        assert(x * (y * z) == (x * y) * z) by (nonlinear_arith);
    } else {
        assert(span(shape, a + 1) == 1);
        assert(span(front, a) == 1);
    }
}

proof fn lemma_steps_last(index: Seq<int>, shape: Seq<u64>, a: int)
    requires
        0 <= a <= shape.len() - 1,
        index.len() == shape.len(),
    ensures
        steps(index, shape, a) == steps(index.drop_last(), shape.drop_last(), a) * shape.last()
            + index.last(),
    decreases shape.len() - a,
{
    let front = shape.drop_last();
    if a < shape.len() - 1 {
        lemma_steps_last(index, shape, a + 1);
        lemma_span_last(shape, a + 1);
        let (x, y, z) = (index[a], span(front, a + 1), shape.last() as int);
        let rest = steps(index.drop_last(), front, a + 1);
        assert(x * (y * z) + rest * z == (x * y + rest) * z) by (nonlinear_arith);
        assert(index.drop_last()[a] == x);
    } else {
        assert(span(shape, a + 1) == 1);
        assert(steps(index, shape, a + 1) == 0);
        assert(steps(index.drop_last(), front, a) == 0);
        assert(0 * shape.last() == 0);
    }
}

/// The number of elements of an array is the product of its extents.
pub proof fn extents_multiply(shape: Seq<u64>)
    ensures
        product(shape) == span(shape, 0),
    decreases shape.len(),
{
    if shape.len() > 0 {
        extents_multiply(shape.drop_last());
        lemma_span_last(shape, 0);
    }
}

/// Elements stand in row-major order: the last axis varies fastest, and a step along
/// any axis passes over everything behind it.
pub proof fn elements_stand_row_by_row(index: Seq<int>, shape: Seq<u64>)
    requires
        index.len() == shape.len(),
    ensures
        ravel(index, shape) == steps(index, shape, 0),
    decreases shape.len(),
{
    if shape.len() > 0 {
        elements_stand_row_by_row(index.drop_last(), shape.drop_last());
        lemma_steps_last(index, shape, 0);
    }
}

/// Where the element at `index` of an array stands in a selection that takes it.
pub open spec fn place_in(slab: SlabView, index: Seq<int>) -> int {
    steps(Seq::new(index.len(), |a: int| index[a] - slab.start[a]), slab.count, 0)
}

/// A selection takes the elements from its start on, as many along each axis as it
/// counts, row by row.
pub proof fn a_selection_takes_its_elements_row_by_row(slab: SlabView, index: Seq<int>)
    requires
        slab.start.len() == slab.count.len() == index.len(),
        forall|a: int|
            0 <= a < index.len() ==> slab.start[a] <= #[trigger] index[a] < slab.start[a]
                + slab.count[a],
    ensures
        0 <= place_in(slab, index) < span(slab.count, 0),
        selected_index(slab, place_in(slab, index)) == index,
{
    assert(covers(slab.start, slab.count, index));
    lemma_selects(slab, index);
    let inner = local(index, slab.start);
    assert(inner =~= Seq::new(index.len(), |a: int| index[a] - slab.start[a]));
    elements_stand_row_by_row(inner, slab.count);
    extents_multiply(slab.count);
}

} // verus!
