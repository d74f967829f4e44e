//! Selections: which part of an array a read takes.

#[allow(unused_imports)]
use vstd::arithmetic::div_mod::{lemma_fundamental_div_mod, lemma_fundamental_div_mod_converse};
use vstd::prelude::*;
use vstd::slice::slice_to_vec;

use crate::error::{Error, Result};
#[allow(unused_imports)]
use crate::error::{seen, ErrorView};
use crate::text::numbered;
#[allow(unused_imports)]
use crate::text::decimal;
use crate::shape::checked_product;
#[allow(unused_imports)]
use crate::shape::{lemma_product_zero, product};

verus! {

/// A block of values as read: in row-major order, each with its least
/// significant byte first.
#[derive(Debug, Clone, PartialEq, Eq)]
pub struct RawData {
    /// The bytes of all values.
    pub bytes: Vec<u8>,
    /// Width of one value in bytes.
    pub element_size: usize,
    /// Shape of the block.
    pub shape: Vec<u64>,
}

/// What a [`RawData`] holds.
#[verifier::ext_equal]
pub struct RawDataView {
    pub bytes: Seq<u8>,
    pub element_size: nat,
    pub shape: Seq<u64>,
}

impl View for RawData {
    type V = RawDataView;

    open spec fn view(&self) -> RawDataView {
        RawDataView {
            bytes: self.bytes@,
            element_size: self.element_size as nat,
            shape: self.shape@,
        }
    }
}

/// A rectangular block of an array: where it starts along each axis and how
/// many elements it takes.
#[derive(Debug, Clone, PartialEq, Eq)]
pub struct Hyperslab {
    /// First element along each axis.
    pub start: Vec<u64>,
    /// Number of elements along each axis.
    pub count: Vec<u64>,
}

/// What a [`Hyperslab`] selects.
#[verifier::ext_equal]
pub struct SlabView {
    pub start: Seq<u64>,
    pub count: Seq<u64>,
}

impl View for Hyperslab {
    type V = SlabView;

    open spec fn view(&self) -> SlabView {
        SlabView { start: self.start@, count: self.count@ }
    }
}

impl SlabView {
    /// The block takes the same axes as the array and ends inside it.
    pub open spec fn within(self, shape: Seq<u64>) -> bool {
        &&& self.start.len() == shape.len()
        &&& self.count.len() == shape.len()
        &&& forall|a: int| 0 <= a < shape.len() ==> #[trigger] self.start[a] + self.count[a] <= shape[a]
    }

    /// The first axis from `a` on along which the block runs past the array.
    pub open spec fn first_overrun(self, shape: Seq<u64>, a: int) -> int
        decreases shape.len() - a,
    {
        if a >= shape.len() || self.start[a] + self.count[a] > shape[a] {
            a
        } else {
            self.first_overrun(shape, a + 1)
        }
    }

    /// Whether the block can be read from an array of this shape.
    pub open spec fn checked(self, shape: Seq<u64>) -> std::result::Result<(), ErrorView> {
        if self.start.len() != shape.len() || self.count.len() != shape.len() {
            Err(
                ErrorView::BadRequest(
                    "selection does not have the rank of the variable, which is "@ + decimal(
                        shape.len(),
                    ),
                ),
            )
        } else if self.first_overrun(shape, 0) < shape.len() {
            Err(
                ErrorView::BadRequest(
                    "selection runs past the end of axis "@ + decimal(
                        self.first_overrun(shape, 0) as nat,
                    ),
                ),
            )
        } else {
            Ok(())
        }
    }
}

/// The whole array, as a block.
pub open spec fn whole_of(shape: Seq<u64>) -> SlabView {
    SlabView { start: Seq::new(shape.len(), |i: int| 0u64), count: shape }
}

/// A block passes the check if and only if it lies within the array.
pub proof fn checked_selections_lie_within(slab: SlabView, shape: Seq<u64>)
    ensures
        slab.checked(shape) is Ok <==> slab.within(shape),
        slab.checked(shape) matches Err(e) ==> e is BadRequest,
{
    if slab.start.len() == shape.len() && slab.count.len() == shape.len() {
        lemma_first_overrun(slab, shape, 0);
    }
}

proof fn lemma_first_overrun(slab: SlabView, shape: Seq<u64>, a: int)
    requires
        slab.start.len() == shape.len(),
        slab.count.len() == shape.len(),
        0 <= a <= shape.len(),
        forall|k: int| 0 <= k < a ==> #[trigger] slab.start[k] + slab.count[k] <= shape[k],
    ensures
        a <= slab.first_overrun(shape, a) <= shape.len(),
        slab.first_overrun(shape, a) == shape.len() <==> slab.within(shape),
    decreases shape.len() - a,
{
    if a < shape.len() && slab.start[a] + slab.count[a] <= shape[a] {
        lemma_first_overrun(slab, shape, a + 1);
    }
}

/// The whole of any array can be selected.
pub proof fn the_whole_array_can_be_selected(shape: Seq<u64>)
    ensures
        whole_of(shape).within(shape),
        whole_of(shape).checked(shape) is Ok,
{
    checked_selections_lie_within(whole_of(shape), shape);
}

impl Hyperslab {
    /// The whole of an array.
    pub fn all(shape: &[u64]) -> (r: Self)
        ensures
            r@ == whole_of(shape@),
    {
        let r = Hyperslab { start: vec![0u64; shape.len()], count: slice_to_vec(shape) };
        assert(r@ =~= whole_of(shape@));
        r
    }

    /// A block of an array, checked against its shape.
    pub fn new(start: Vec<u64>, count: Vec<u64>, shape: &[u64]) -> (r: Result<Self>)
        ensures
            match (SlabView { start: start@, count: count@ }).checked(shape@) {
                Ok(_) => r matches Ok(slab) && slab@ == (SlabView {
                    start: start@,
                    count: count@,
                }),
                Err(want) => r matches Err(e) && e@ == want,
            },
    {
        let slab = Hyperslab { start, count };
        slab.validate(shape)?;
        Ok(slab)
    }

    /// Check that the block lies within an array of this shape.
    pub fn validate(&self, shape: &[u64]) -> (r: Result<()>)
        ensures
            seen(r) == self@.checked(shape@),
    {
        if self.start.len() != shape.len() || self.count.len() != shape.len() {
            return Err(
                Error::BadRequest(
                    numbered(
                        "selection does not have the rank of the variable, which is ",
                        shape.len() as u64,
                    ),
                ),
            );
        }
        let mut a: usize = 0;
        while a < shape.len()
            invariant
                a <= shape@.len() == self.start@.len() == self.count@.len(),
                self@.first_overrun(shape@, 0) == self@.first_overrun(shape@, a as int),
            decreases shape@.len() - a,
        {
            if self.count[a] > shape[a] || self.start[a] > shape[a] - self.count[a] {
                return Err(
                    Error::BadRequest(numbered("selection runs past the end of axis ", a as u64)),
                );
            }
            a = a + 1;
        }
        Ok(())
    }

    /// Number of elements in the block, when it fits in 64 bits.
    pub fn element_count(&self) -> (r: Option<u64>)
        ensures
            r == if product(self@.count) <= u64::MAX {
                Some(product(self@.count) as u64)
            } else {
                None
            },
    {
        checked_product(self.count.as_slice())
    }
}

// ── row-major order ────────────────────────────────────────────────────────

/// The index along each axis of element number `k`, in row-major order.
pub open spec fn unravel(k: int, shape: Seq<u64>) -> Seq<int>
    decreases shape.len(),
{
    if shape.len() == 0 {
        Seq::empty()
    } else {
        unravel(k / shape.last() as int, shape.drop_last()).push(k % shape.last() as int)
    }
}

/// The number of the element at an index, in row-major order.
pub open spec fn ravel(index: Seq<int>, shape: Seq<u64>) -> int
    decreases shape.len(),
{
    if shape.len() == 0 {
        0
    } else {
        ravel(index.drop_last(), shape.drop_last()) * shape.last() + index.last()
    }
}

/// The index lies inside the array.
pub open spec fn inside(index: Seq<int>, shape: Seq<u64>) -> bool {
    &&& index.len() == shape.len()
    &&& forall|a: int| 0 <= a < shape.len() ==> 0 <= #[trigger] index[a] < shape[a]
}

/// Every element of an array has an index inside it, and the number of that
/// index is the element's own.
pub proof fn every_element_has_an_index(k: int, shape: Seq<u64>)
    requires
        0 <= k < product(shape),
    ensures
        inside(unravel(k, shape), shape),
        ravel(unravel(k, shape), shape) == k,
    decreases shape.len(),
{
    if shape.len() > 0 {
        let c = shape.last() as int;
        let n = product(shape.drop_last()) as int;
        assert(c > 0) by (nonlinear_arith)
            requires
                0 <= k < n * c,
                0 <= n,
                0 <= c,
        ;
        lemma_fundamental_div_mod(k, c);
        assert(0 <= k / c < n) by (nonlinear_arith)
            requires
                0 <= k < n * c,
                k == c * (k / c) + k % c,
                0 <= k % c < c,
        ;
        every_element_has_an_index(k / c, shape.drop_last());
        let inner = unravel(k / c, shape.drop_last());
        let index = unravel(k, shape);
        assert(index.drop_last() =~= inner);
        assert(inside(index, shape)) by {
            assert forall|a: int| 0 <= a < shape.len() implies 0 <= #[trigger] index[a]
                < shape[a] by {
                if a < shape.len() - 1 {
                    assert(index[a] == inner[a]);
                    assert(shape.drop_last()[a] == shape[a]);
                }
            }
        }
        assert((k / c) * c == c * (k / c)) by (nonlinear_arith);
    }
}

/// Every index inside an array is the index of exactly one element of it.
pub proof fn every_index_has_an_element(index: Seq<int>, shape: Seq<u64>)
    requires
        inside(index, shape),
    ensures
        0 <= ravel(index, shape) < product(shape),
        unravel(ravel(index, shape), shape) == index,
    decreases shape.len(),
{
    if shape.len() > 0 {
        let inner = index.drop_last();
        assert forall|a: int| 0 <= a < shape.drop_last().len() implies 0 <= #[trigger] inner[a]
            < shape.drop_last()[a] by {
            assert(inner[a] == index[a]);
        }
        every_index_has_an_element(inner, shape.drop_last());
        let c = shape.last() as int;
        let q = ravel(inner, shape.drop_last());
        let r = index.last();
        let n = product(shape.drop_last()) as int;
        assert(0 <= r < c) by {
            assert(index[shape.len() - 1] == r);
        }
        assert(0 <= q * c + r < n * c) by (nonlinear_arith)
            requires
                0 <= q < n,
                0 <= r < c,
        ;
        lemma_fundamental_div_mod_converse(q * c + r, c, q, r);
        assert(unravel(ravel(index, shape), shape) =~= index);
    } else {
        assert(unravel(ravel(index, shape), shape) =~= index);
    }
}

/// The number of an index is not negative.
pub proof fn lemma_ravel_nonnegative(index: Seq<int>, shape: Seq<u64>)
    requires
        index.len() == shape.len(),
        forall|a: int| 0 <= a < index.len() ==> 0 <= #[trigger] index[a],
    ensures
        0 <= ravel(index, shape),
    decreases shape.len(),
{
    if shape.len() > 0 {
        let inner = index.drop_last();
        assert forall|a: int| 0 <= a < inner.len() implies 0 <= #[trigger] inner[a] by {
            assert(inner[a] == index[a]);
        }
        lemma_ravel_nonnegative(inner, shape.drop_last());
        let (q, c) = (ravel(inner, shape.drop_last()), shape.last() as int);
        assert(0 <= index[shape.len() - 1]);
        assert(0 <= q * c) by (nonlinear_arith)
            requires
                0 <= q,
                0 <= c,
        ;
    }
}

/// A sequence of machine integers as integers.
pub open spec fn integers(s: Seq<u64>) -> Seq<int> {
    Seq::new(s.len(), |i: int| s[i] as int)
}

/// The index along each axis of element number `k`, in row-major order.
pub fn index_of(k: u64, shape: &[u64]) -> (r: Vec<u64>)
    requires
        k < product(shape@),
    ensures
        integers(r@) == unravel(k as int, shape@),
        r@.len() == shape@.len(),
{
    let mut out: Vec<u64> = vec![0u64; shape.len()];
    let mut rest: u64 = k;
    let mut axis: usize = shape.len();
    assert(shape@.take(axis as int) =~= shape@);
    assert(integers(out@).skip(axis as int) =~= Seq::<int>::empty());
    assert(unravel(rest as int, shape@) =~= unravel(rest as int, shape@) + Seq::<int>::empty());
    while axis > 0
        invariant
            axis <= shape@.len() == out@.len(),
            k < product(shape@),
            unravel(k as int, shape@) == unravel(rest as int, shape@.take(axis as int)) + integers(
                out@,
            ).skip(axis as int),
        decreases axis,
    {
        let ghost before = integers(out@).skip(axis as int);
        let ghost head = unravel(rest as int, shape@.take(axis as int));
        axis = axis - 1;
        proof {
            if shape@[axis as int] == 0 {
                lemma_product_zero(shape@, axis as int);
            }
            assert(shape@.take(axis + 1).drop_last() =~= shape@.take(axis as int));
        }
        let c: u64 = shape[axis];
        out[axis] = rest % c;
        rest = rest / c;
        proof {
            let tail = integers(out@).skip(axis as int);
            assert(tail =~= seq![out@[axis as int] as int] + before);
            assert(head + before =~= unravel(rest as int, shape@.take(axis as int)) + tail);
        }
    }
    assert(integers(out@).skip(0) =~= integers(out@));
    assert(unravel(k as int, shape@) =~= integers(out@));
    out
}

/// The number of the element at an index, where 64 bits can say it.
pub fn number_of(index: &[u64], shape: &[u64]) -> (r: Option<u64>)
    requires
        index@.len() == shape@.len(),
    ensures
        match r {
            Some(k) => k == ravel(integers(index@), shape@),
            None => ravel(integers(index@), shape@) > u64::MAX,
        },
{
    let ghost full = integers(index@);
    let mut number: Option<u64> = Some(0);
    let mut axis: usize = 0;
    while axis < shape.len()
        invariant
            axis <= shape@.len() == index@.len(),
            full == integers(index@),
            match number {
                Some(k) => k == ravel(full.take(axis as int), shape@.take(axis as int)),
                None => ravel(full.take(axis as int), shape@.take(axis as int)) > u64::MAX,
            },
        decreases shape@.len() - axis,
    {
        let c: u64 = shape[axis];
        let i: u64 = index[axis];
        let ghost before = ravel(full.take(axis as int), shape@.take(axis as int));
        proof {
            assert(full.take(axis + 1).drop_last() =~= full.take(axis as int));
            assert(shape@.take(axis + 1).drop_last() =~= shape@.take(axis as int));
            assert(ravel(full.take(axis + 1), shape@.take(axis + 1)) == before * c + i);
            assert(c == 0 ==> before * c == 0) by (nonlinear_arith);
            assert(c >= 1 && before > u64::MAX ==> before * c > u64::MAX) by (nonlinear_arith);
        }
        number = if c == 0 {
            Some(i)
        } else {
            match number {
                None => None,
                Some(k) => match k.checked_mul(c) {
                    None => None,
                    Some(m) => m.checked_add(i),
                },
            }
        };
        axis = axis + 1;
    }
    assert(full.take(axis as int) =~= full);
    assert(shape@.take(axis as int) =~= shape@);
    number
}

/// The index of element number `k` of a selection, counted in the whole array.
pub open spec fn selected_index(slab: SlabView, k: int) -> Seq<int> {
    let index = unravel(k, slab.count);
    Seq::new(slab.count.len(), |a: int| slab.start[a] + index[a])
}

} // verus!
