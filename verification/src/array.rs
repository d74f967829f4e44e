//! Shaped arrays of values.
//!
//! A read hands out values as one flat list. An array gives them the shape of
//! the block that was read, so that a value is found by its index along each
//! axis. Its axes follow the variable's dimensions in order.

use vstd::prelude::*;

use crate::error::{Error, Result};
#[allow(unused_imports)]
use crate::error::ErrorView;
#[allow(unused_imports)]
use crate::read::{inside, ravel};
use crate::shape::checked_product;
#[allow(unused_imports)]
use crate::shape::product;
use crate::text::{add_number, add_text, joined, numbered};
#[allow(unused_imports)]
use crate::text::decimal;

verus! {

/// An array of values, each by its bit pattern, in row-major order.
///
/// The values live in an `ndarray::ArrayD`, which Verus sees nothing of.
#[verifier::external_body]
pub struct ValueArray {
    inner: ndarray::ArrayD<u64>,
}

/// The length of each axis of an array.
pub uninterp spec fn array_shape(a: ValueArray) -> Seq<u64>;

/// The values of an array, in row-major order.
pub uninterp spec fn array_items(a: ValueArray) -> Seq<u64>;

/// The product of the extents that are not zero.
pub open spec fn nonzero_product(dims: Seq<u64>) -> nat
    decreases dims.len(),
{
    if dims.len() == 0 {
        1
    } else if dims.last() == 0 {
        nonzero_product(dims.drop_last())
    } else {
        nonzero_product(dims.drop_last()) * dims.last() as nat
    }
}

/// An index as integers.
pub open spec fn index_view(index: Seq<usize>) -> Seq<int> {
    Seq::new(index.len(), |i: int| index[i] as int)
}

/// Shape a flat list, by `ndarray::ArrayD::from_shape_vec`.
///
/// The list has as many values as the shape has room for. The call then fails
/// only where the extents that are not zero multiply to more than `isize::MAX`,
/// and takes the values in row-major order. The text of the error is what
/// `ndarray::ShapeError` shows for an overflow.
#[verifier::external_body]
fn from_shape_vec(shape: &[u64], values: Vec<u64>) -> (r: std::result::Result<ValueArray, String>)
    requires
        product(shape@) == values@.len(),
        forall|i: int| 0 <= i < shape@.len() ==> shape@[i] <= usize::MAX,
    ensures
        match r {
            Ok(a) => nonzero_product(shape@) <= isize::MAX && array_shape(a) == shape@
                && array_items(a) == values@,
            Err(m) => nonzero_product(shape@) > isize::MAX && m@
                == "ShapeError/Overflow: arithmetic overflow"@,
        },
{
    let dims: Vec<usize> = shape.iter().map(|&d| d as usize).collect();
    match ndarray::ArrayD::from_shape_vec(ndarray::IxDyn(&dims), values) {
        Ok(inner) => Ok(ValueArray { inner }),
        Err(e) => Err(e.to_string()),
    }
}

/// The length of each axis, by `ndarray::ArrayBase::shape`.
#[verifier::external_body]
fn axes_of(a: &ValueArray) -> (r: Vec<u64>)
    ensures
        r@ == array_shape(*a),
{
    a.inner.shape().iter().map(|&d| d as u64).collect()
}

/// The value at an index, by `ndarray::ArrayBase::get`.
///
/// An index with another number of axes, or one past the end of an axis, has no
/// value. Every array was shaped by [`from_shape_vec`], so its values stand in
/// row-major order.
#[verifier::external_body]
fn value_at(a: &ValueArray, index: &[usize]) -> (r: Option<u64>)
    ensures
        r == if inside(index_view(index@), array_shape(*a)) {
            Some(array_items(*a)[ravel(index_view(index@), array_shape(*a))])
        } else {
            None
        },
{
    a.inner.get(index).copied()
}

impl ValueArray {
    /// The length of each axis.
    pub fn shape(&self) -> (r: Vec<u64>)
        ensures
            r@ == array_shape(*self),
    {
        axes_of(self)
    }

    /// The value at an index, if the array has one there.
    pub fn get(&self, index: &[usize]) -> (r: Option<u64>)
        ensures
            r == if inside(index_view(index@), array_shape(*self)) {
                Some(array_items(*self)[ravel(index_view(index@), array_shape(*self))])
            } else {
                None
            },
    {
        value_at(self, index)
    }
}

/// A list of extents as text, such as `[2, 3]`.
pub open spec fn extents_text(dims: Seq<u64>) -> Seq<char> {
    "["@ + extents_list(dims) + "]"@
}

/// The extents with commas between them.
pub open spec fn extents_list(dims: Seq<u64>) -> Seq<char>
    decreases dims.len(),
{
    if dims.len() == 0 {
        Seq::empty()
    } else if dims.len() == 1 {
        decimal(dims[0] as nat)
    } else {
        extents_list(dims.drop_last()) + ", "@ + decimal(dims.last() as nat)
    }
}

/// What comes of shaping a list of `n` values.
pub open spec fn shaping(shape: Seq<u64>, n: nat) -> std::result::Result<(), ErrorView> {
    if product(shape) > u64::MAX || (exists|i: int|
        0 <= i < shape.len() && #[trigger] shape[i] > usize::MAX) {
        Err(ErrorView::Malformed("the shape has more room than memory can hold"@))
    } else if n != product(shape) {
        Err(
            ErrorView::Malformed(
                "cannot shape "@ + decimal(n) + " values into "@ + extents_text(shape)
                    + ", which holds "@ + decimal(product(shape)),
            ),
        )
    } else if nonzero_product(shape) > isize::MAX {
        Err(
            ErrorView::Malformed(
                "failed to shape values into an array: "@
                    + "ShapeError/Overflow: arithmetic overflow"@,
            ),
        )
    } else {
        Ok(())
    }
}

fn show_extents(dims: &[u64]) -> (r: String)
    ensures
        r@ == extents_text(dims@),
{
    let mut out: String = String::from_str("[");
    let mut i: usize = 0;
    assert(extents_list(dims@.take(0)) =~= Seq::<char>::empty());
    assert("["@ + Seq::<char>::empty() =~= "["@);
    while i < dims.len()
        invariant
            i <= dims@.len(),
            out@ == "["@ + extents_list(dims@.take(i as int)),
        decreases dims@.len() - i,
    {
        proof {
            let done = dims@.take(i as int);
            let next = dims@.take(i + 1);
            assert(next.drop_last() =~= done);
            assert("["@ + extents_list(done) + ", "@ + decimal(dims@[i as int] as nat) =~= "["@ + (
            extents_list(done) + ", "@ + decimal(dims@[i as int] as nat)));
            if i == 0 {
                assert("["@ + extents_list(done) =~= "["@);
            }
        }
        if i > 0 {
            out = add_text(out, ", ");
        }
        out = add_number(out, dims[i]);
        i = i + 1;
    }
    assert(dims@.take(i as int) =~= dims@);
    add_text(out, "]")
}

/// Whether one axis is longer than memory can hold.
fn has_long_axis(shape: &[u64]) -> (r: bool)
    ensures
        r == exists|i: int| 0 <= i < shape@.len() && #[trigger] shape@[i] > usize::MAX,
{
    let mut i: usize = 0;
    while i < shape.len()
        invariant
            i <= shape@.len(),
            forall|j: int| 0 <= j < i ==> #[trigger] shape@[j] <= usize::MAX,
        decreases shape@.len() - i,
    {
        if shape[i] > usize::MAX as u64 {
            return true;
        }
        i = i + 1;
    }
    false
}

/// Wrap a flat, row-major list in an array of the given shape.
pub fn shape_into_array(shape: &[u64], values: Vec<u64>) -> (r: Result<ValueArray>)
    ensures
        match (r, shaping(shape@, values@.len())) {
            (Ok(a), Ok(_)) => array_shape(a) == shape@ && array_items(a) == values@,
            (Err(e), Err(want)) => e@ == want,
            _ => false,
        },
{
    let expected: u64 = match checked_product(shape) {
        Some(n) => n,
        None => {
            return Err(Error::malformed("the shape has more room than memory can hold"));
        },
    };
    if has_long_axis(shape) {
        return Err(Error::malformed("the shape has more room than memory can hold"));
    }
    let n: usize = values.len();
    if n as u64 != expected {
        let m = add_text(numbered("cannot shape ", n as u64), " values into ");
        let m = add_text(m, show_extents(shape).as_str());
        let m = add_number(add_text(m, ", which holds "), expected);
        return Err(Error::Malformed(m));
    }
    match from_shape_vec(shape, values) {
        Ok(a) => Ok(a),
        Err(e) => Err(
            Error::Malformed(joined("failed to shape values into an array: ", e.as_str())),
        ),
    }
}

/// Shaping gives every value its place: the value at an index is the one that
/// stands there in row-major order, and every value of the list is found at
/// some index.
pub proof fn shaping_keeps_every_value(shape: Seq<u64>, values: Seq<u64>, k: int)
    requires
        product(shape) == values.len(),
        0 <= k < values.len(),
    ensures
        exists|index: Seq<int>| #[trigger]
            inside(index, shape) && values[ravel(index, shape)] == values[k],
{
    crate::read::every_element_has_an_index(k, shape);
    assert(inside(crate::read::unravel(k, shape), shape));
}

} // verus!
