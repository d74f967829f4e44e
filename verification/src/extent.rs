//! Selections as a caller writes them: one extent for each axis.
//!
//! ```text
//! Extents::from(..)            the whole variable
//! Extent::from(0..8)           one range
//! Extent::from(2..)            to the end of the axis
//! Extent::from(..8)            from the start of the axis
//! Extent::from(3)              one element
//! ```
//!
//! Only contiguous selections can be read. A stride is refused rather than
//! ignored.

use std::ops::{Range, RangeFrom, RangeFull, RangeTo};

use vstd::prelude::*;
#[allow(unused_imports)]
use vstd::std_specs::convert::FromSpecImpl;

use crate::error::{Error, Result};
#[allow(unused_imports)]
use crate::error::{seen, ErrorView};
use crate::read::Hyperslab;
#[allow(unused_imports)]
use crate::read::{checked_selections_lie_within, whole_of, SlabView};
use crate::text::{add_number, add_text, joined, numbered};
#[allow(unused_imports)]
use crate::text::decimal;

verus! {

/// `std::ops::RangeFrom`: a range without an end. Its start is a field.
#[verifier::external_type_specification]
#[verifier::reject_recursive_types(Idx)]
pub struct ExRangeFrom<Idx>(RangeFrom<Idx>);

/// `std::ops::RangeTo`: a range without a start. Its end is a field.
#[verifier::external_type_specification]
#[verifier::reject_recursive_types(Idx)]
pub struct ExRangeTo<Idx>(RangeTo<Idx>);

/// `std::ops::RangeFull`: the range of everything.
#[verifier::external_type_specification]
pub struct ExRangeFull(RangeFull);

/// What a selection takes along one axis.
#[derive(Debug, Clone, Copy, PartialEq, Eq, Structural)]
pub enum Extent {
    /// From `start` to the end of the axis.
    Slice {
        /// First element.
        start: usize,
        /// Distance between elements.
        stride: isize,
    },
    /// From `start` up to, but not including, `end`.
    SliceEnd {
        /// First element.
        start: usize,
        /// The element behind the last.
        end: usize,
        /// Distance between elements.
        stride: isize,
    },
    /// `count` elements from `start` on.
    SliceCount {
        /// First element.
        start: usize,
        /// Number of elements.
        count: usize,
        /// Distance between elements.
        stride: isize,
    },
    /// One element.
    Index(usize),
}

/// A selection: everything, or one extent for each axis.
#[derive(Debug, Clone, PartialEq, Eq)]
pub enum Extents {
    /// The whole variable.
    All,
    /// One extent for each axis.
    Extent(Vec<Extent>),
}

impl View for Extents {
    type V = Option<Seq<Extent>>;

    open spec fn view(&self) -> Option<Seq<Extent>> {
        match *self {
            Extents::All => None,
            Extents::Extent(v) => Some(v@),
        }
    }
}

impl From<usize> for Extent {
    fn from(i: usize) -> (r: Self) {
        Extent::Index(i)
    }
}

impl FromSpecImpl<usize> for Extent {
    open spec fn obeys_from_spec() -> bool {
        true
    }

    open spec fn from_spec(i: usize) -> Self {
        Extent::Index(i)
    }
}

impl From<Range<usize>> for Extent {
    fn from(range: Range<usize>) -> (r: Self) {
        Extent::SliceEnd { start: range.start, end: range.end, stride: 1 }
    }
}

impl From<RangeFrom<usize>> for Extent {
    fn from(range: RangeFrom<usize>) -> (r: Self) {
        Extent::Slice { start: range.start, stride: 1 }
    }
}

impl FromSpecImpl<RangeFrom<usize>> for Extent {
    open spec fn obeys_from_spec() -> bool {
        true
    }

    open spec fn from_spec(range: RangeFrom<usize>) -> Self {
        Extent::Slice { start: range.start, stride: 1 }
    }
}

impl FromSpecImpl<Range<usize>> for Extent {
    open spec fn obeys_from_spec() -> bool {
        true
    }

    open spec fn from_spec(range: Range<usize>) -> Self {
        Extent::SliceEnd { start: range.start, end: range.end, stride: 1 }
    }
}

impl From<RangeTo<usize>> for Extent {
    fn from(range: RangeTo<usize>) -> (r: Self) {
        Extent::SliceEnd { start: 0, end: range.end, stride: 1 }
    }
}

impl FromSpecImpl<RangeTo<usize>> for Extent {
    open spec fn obeys_from_spec() -> bool {
        true
    }

    open spec fn from_spec(range: RangeTo<usize>) -> Self {
        Extent::SliceEnd { start: 0, end: range.end, stride: 1 }
    }
}

impl From<RangeFull> for Extents {
    fn from(range: RangeFull) -> (r: Self) {
        Extents::All
    }
}

impl FromSpecImpl<RangeFull> for Extents {
    open spec fn obeys_from_spec() -> bool {
        true
    }

    open spec fn from_spec(range: RangeFull) -> Self {
        Extents::All
    }
}

impl From<()> for Extents {
    fn from(nothing: ()) -> (r: Self) {
        Extents::All
    }
}

impl FromSpecImpl<()> for Extents {
    open spec fn obeys_from_spec() -> bool {
        true
    }

    open spec fn from_spec(nothing: ()) -> Self {
        Extents::All
    }
}

impl From<Vec<Extent>> for Extents {
    fn from(extents: Vec<Extent>) -> (r: Self) {
        Extents::Extent(extents)
    }
}

impl FromSpecImpl<Vec<Extent>> for Extents {
    open spec fn obeys_from_spec() -> bool {
        true
    }

    open spec fn from_spec(extents: Vec<Extent>) -> Self {
        Extents::Extent(extents)
    }
}

/// The first element and the number of elements that an extent takes of an axis
/// with `len` elements, or why it cannot be read.
pub open spec fn taken(e: Extent, len: u64, axis: nat) -> std::result::Result<
    (u64, u64),
    ErrorView,
> {
    let strided = ErrorView::Unsupported("a stride along axis "@ + decimal(axis));
    let reversed = ErrorView::BadRequest("selection ends before it starts along axis "@ + decimal(axis));
    match e {
        Extent::Slice { start, stride } => if stride != 1 {
            Err(strided)
        } else if start > len {
            Err(reversed)
        } else {
            Ok((start as u64, (len - start) as u64))
        },
        Extent::SliceEnd { start, end, stride } => if stride != 1 {
            Err(strided)
        } else if start > end {
            Err(reversed)
        } else {
            Ok((start as u64, (end - start) as u64))
        },
        Extent::SliceCount { start, count, stride } => if stride != 1 {
            Err(strided)
        } else {
            Ok((start as u64, count as u64))
        },
        Extent::Index(i) => Ok((i as u64, 1)),
    }
}

/// The block that the extents take, axis by axis, behind what `slab` takes of
/// the first axes.
pub open spec fn taken_from(extents: Seq<Extent>, shape: Seq<u64>, slab: SlabView) -> std::result::Result<
    SlabView,
    ErrorView,
>
    decreases extents.len() - slab.start.len(),
{
    let a = slab.start.len() as int;
    if a >= extents.len() {
        Ok(slab)
    } else {
        match taken(extents[a], shape[a], a as nat) {
            Err(e) => Err(e),
            Ok((start, count)) => taken_from(
                extents,
                shape,
                SlabView { start: slab.start.push(start), count: slab.count.push(count) },
            ),
        }
    }
}

/// The error of a selection that does not name every axis once.
pub open spec fn wrong_rank(path: Seq<char>, named: nat, rank: nat) -> ErrorView {
    ErrorView::BadRequest(
        "the selection on variable "@ + path + " names "@ + decimal(named)
            + " axes, but the variable has "@ + decimal(rank),
    )
}

/// The block that a selection takes of a variable.
pub open spec fn selected_block(
    extents: Option<Seq<Extent>>,
    path: Seq<char>,
    shape: Seq<u64>,
) -> std::result::Result<SlabView, ErrorView> {
    match extents {
        None => Ok(whole_of(shape)),
        Some(v) => if v.len() != shape.len() {
            Err(wrong_rank(path, v.len(), shape.len()))
        } else {
            match taken_from(v, shape, SlabView { start: Seq::empty(), count: Seq::empty() }) {
                Err(e) => Err(e),
                Ok(slab) => match slab.checked(shape) {
                    Err(e) => Err(e),
                    Ok(_) => Ok(slab),
                },
            }
        },
    }
}

/// The first element and the number of elements that an extent takes.
fn take_extent(e: Extent, len: u64, axis: usize) -> (r: Result<(u64, u64)>)
    ensures
        match (r, taken(e, len, axis as nat)) {
            (Ok(got), Ok(want)) => got == want,
            (Err(got), Err(want)) => got@ == want,
            _ => false,
        },
{
    let (start, count, stride): (u64, Option<u64>, isize) = match e {
        Extent::Slice { start, stride } => (
            start as u64,
            if start as u64 <= len { Some(len - start as u64) } else { None },
            stride,
        ),
        Extent::SliceEnd { start, end, stride } => (
            start as u64,
            if start <= end { Some((end - start) as u64) } else { None },
            stride,
        ),
        Extent::SliceCount { start, count, stride } => (start as u64, Some(count as u64), stride),
        Extent::Index(i) => (i as u64, Some(1), 1),
    };
    if stride != 1 {
        return Err(Error::Unsupported(numbered("a stride along axis ", axis as u64)));
    }
    match count {
        Some(n) => Ok((start, n)),
        None => Err(
            Error::BadRequest(
                numbered("selection ends before it starts along axis ", axis as u64),
            ),
        ),
    }
}

impl Extents {
    /// A selection given by where it starts and how much it takes of each axis.
    pub fn from_start_and_count(start: &[usize], count: &[usize]) -> (r: Result<Self>)
        ensures
            match r {
                Ok(e) => start@.len() == count@.len() && e@ == Some(
                    Seq::new(
                        start@.len(),
                        |a: int|
                            Extent::SliceCount { start: start@[a], count: count@[a], stride: 1 },
                    ),
                ),
                Err(e) => start@.len() != count@.len() && e@ == ErrorView::BadRequest(
                    "a selection starts and counts along different numbers of axes"@,
                ),
            },
    {
        if start.len() != count.len() {
            return Err(
                Error::bad_request("a selection starts and counts along different numbers of axes"),
            );
        }
        let mut out: Vec<Extent> = Vec::new();
        while out.len() < start.len()
            invariant
                start@.len() == count@.len(),
                out@.len() <= start@.len(),
                forall|a: int|
                    0 <= a < out@.len() ==> #[trigger] out@[a] == (Extent::SliceCount {
                        start: start@[a],
                        count: count@[a],
                        stride: 1,
                    }),
            decreases start@.len() - out@.len(),
        {
            let a: usize = out.len();
            out.push(Extent::SliceCount { start: start[a], count: count[a], stride: 1 });
        }
        assert(out@ =~= Seq::new(
            start@.len(),
            |a: int| Extent::SliceCount { start: start@[a], count: count@[a], stride: 1 },
        ));
        Ok(Extents::Extent(out))
    }

    /// The block that the selection takes of a variable.
    pub fn to_hyperslab(&self, path: &str, shape: &[u64]) -> (r: Result<Hyperslab>)
        ensures
            seen(r) == selected_block(self@, path@, shape@),
    {
        let extents = match self {
            Extents::All => {
                return Ok(Hyperslab::all(shape));
            },
            Extents::Extent(v) => v,
        };
        if extents.len() != shape.len() {
            let m = add_text(joined("the selection on variable ", path), " names ");
            let m = add_number(m, extents.len() as u64);
            let m = add_text(m, " axes, but the variable has ");
            return Err(Error::BadRequest(add_number(m, shape.len() as u64)));
        }
        let mut start: Vec<u64> = Vec::new();
        let mut count: Vec<u64> = Vec::new();
        let ghost none = SlabView { start: Seq::empty(), count: Seq::empty() };
        let ghost want = taken_from(extents@, shape@, none);
        assert(SlabView { start: start@, count: count@ } =~= none);
        while start.len() < extents.len()
            invariant
                self@ == Some(extents@),
                extents@.len() == shape@.len(),
                start@.len() == count@.len() <= extents@.len(),
                none == (SlabView { start: Seq::empty(), count: Seq::empty() }),
                want == taken_from(extents@, shape@, none),
                want == taken_from(
                    extents@,
                    shape@,
                    SlabView { start: start@, count: count@ },
                ),
            decreases extents@.len() - start@.len(),
        {
            let a: usize = start.len();
            let (first, n): (u64, u64) = take_extent(extents[a], shape[a], a)?;
            start.push(first);
            count.push(n);
        }
        Hyperslab::new(start, count, shape)
    }
}

/// Whatever selection is accepted lies within the variable.
pub proof fn accepted_selections_lie_within(
    extents: Option<Seq<Extent>>,
    path: Seq<char>,
    shape: Seq<u64>,
)
    ensures
        selected_block(extents, path, shape) matches Ok(slab) ==> slab.within(shape),
{
    if let Ok(slab) = selected_block(extents, path, shape) {
        checked_selections_lie_within(slab, shape);
    }
}

/// A stride is always refused, never ignored: no selection with one is accepted. It
/// is refused as unsupported, unless the selection has the wrong number of axes or an
/// axis before that one is refused.
pub proof fn a_stride_is_never_ignored(
    extents: Seq<Extent>,
    path: Seq<char>,
    shape: Seq<u64>,
    axis: int,
)
    requires
        0 <= axis < extents.len(),
        match extents[axis] {
            Extent::Slice { stride, .. } => stride != 1,
            Extent::SliceEnd { stride, .. } => stride != 1,
            Extent::SliceCount { stride, .. } => stride != 1,
            Extent::Index(_) => false,
        },
    ensures
        selected_block(Some(extents), path, shape) is Err,
        extents.len() == shape.len() && (forall|a: int|
            0 <= a < axis ==> taken(#[trigger] extents[a], shape[a], a as nat) is Ok)
            ==> selected_block(Some(extents), path, shape) == Err::<SlabView, _>(
            ErrorView::Unsupported("a stride along axis "@ + decimal(axis as nat)),
        ),
{
    if extents.len() == shape.len() {
        lemma_stride_refused(
            extents,
            shape,
            SlabView { start: Seq::empty(), count: Seq::empty() },
            axis,
        );
    }
}

proof fn lemma_stride_refused(extents: Seq<Extent>, shape: Seq<u64>, slab: SlabView, axis: int)
    requires
        slab.start.len() <= axis < extents.len(),
        taken(extents[axis], shape[axis], axis as nat) is Err,
    ensures
        taken_from(extents, shape, slab) is Err,
        (forall|a: int|
            slab.start.len() <= a < axis ==> taken(#[trigger] extents[a], shape[a], a as nat) is Ok)
            ==> taken_from(extents, shape, slab) == Err::<SlabView, _>(
            taken(extents[axis], shape[axis], axis as nat)->Err_0,
        ),
    decreases extents.len() - slab.start.len(),
{
    let a = slab.start.len() as int;
    if a < axis {
        if let Ok((start, count)) = taken(extents[a], shape[a], a as nat) {
            lemma_stride_refused(
                extents,
                shape,
                SlabView { start: slab.start.push(start), count: slab.count.push(count) },
                axis,
            );
        }
    }
}

} // verus!
