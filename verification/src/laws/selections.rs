//! Which elements a selection takes.

use std::ops::{Range, RangeFrom, RangeFull, RangeTo};

use vstd::prelude::*;
#[allow(unused_imports)]
use vstd::std_specs::convert::FromSpec;

#[allow(unused_imports)]
use crate::error::ErrorView;
#[allow(unused_imports)]
use crate::extent::{selected_block, taken, taken_from, Extent, Extents};
#[allow(unused_imports)]
use crate::read::{checked_selections_lie_within, whole_of, SlabView};

verus! {

/// Whether an extent takes element `x` of an axis.
pub open spec fn picks(e: Extent, x: int) -> bool {
    match e {
        Extent::Slice { start, .. } => start <= x,
        Extent::SliceEnd { start, end, .. } => start <= x < end,
        Extent::SliceCount { start, count, .. } => start <= x < start + count,
        Extent::Index(i) => x == i,
    }
}

/// Whether an extent can be taken of an axis of this length: it takes every element in
/// turn, it does not end before it starts, and it stays within the axis.
pub open spec fn is_sound(e: Extent, len: u64) -> bool {
    match e {
        Extent::Slice { start, stride } => stride == 1 && start <= len,
        Extent::SliceEnd { start, end, stride } => stride == 1 && start <= end <= len,
        Extent::SliceCount { start, count, stride } => stride == 1 && start + count <= len,
        Extent::Index(i) => i < len,
    }
}

proof fn lemma_taken(extents: Seq<Extent>, shape: Seq<u64>, slab: SlabView)
    requires
        extents.len() == shape.len(),
        slab.start.len() == slab.count.len(),
        slab.start.len() <= extents.len(),
        forall|a: int|
            0 <= a < slab.start.len() ==> taken(extents[a], shape[a], a as nat)
                == std::result::Result::<(u64, u64), ErrorView>::Ok(
                (#[trigger] slab.start[a], slab.count[a]),
            ),
    ensures
        taken_from(extents, shape, slab) matches Ok(all) ==> {
            &&& all.start.len() == extents.len()
            &&& all.count.len() == extents.len()
            &&& forall|a: int|
                0 <= a < extents.len() ==> taken(extents[a], shape[a], a as nat)
                    == std::result::Result::<(u64, u64), ErrorView>::Ok(
                    (#[trigger] all.start[a], all.count[a]),
                )
        },
        taken_from(extents, shape, slab) is Err ==> exists|a: int|
            0 <= a < extents.len() && taken(#[trigger] extents[a], shape[a], a as nat) is Err,
    decreases extents.len() - slab.start.len(),
{
    let a = slab.start.len() as int;
    if a < extents.len() {
        match taken(extents[a], shape[a], a as nat) {
            Ok((start, count)) => {
                let next = SlabView {
                    start: slab.start.push(start),
                    count: slab.count.push(count),
                };
                lemma_taken(extents, shape, next);
            },
            Err(_) => {
                assert(taken(extents[a], shape[a], a as nat) is Err);
            },
        }
    }
}

/// A selection is accepted exactly where it has one sound extent for each axis.
pub proof fn sound_selections_are_accepted(
    extents: Seq<Extent>,
    path: Seq<char>,
    shape: Seq<u64>,
)
    ensures
        selected_block(Some(extents), path, shape) is Ok <==> extents.len() == shape.len() && (
        forall|a: int| 0 <= a < extents.len() ==> is_sound(#[trigger] extents[a], shape[a])),
{
    if extents.len() == shape.len() {
        let none = SlabView { start: Seq::empty(), count: Seq::empty() };
        lemma_taken(extents, shape, none);
        match taken_from(extents, shape, none) {
            Ok(slab) => {
                checked_selections_lie_within(slab, shape);
                if forall|a: int|
                    0 <= a < extents.len() ==> is_sound(#[trigger] extents[a], shape[a]) {
                    assert forall|a: int| 0 <= a < shape.len() implies #[trigger] slab.start[a]
                        + slab.count[a] <= shape[a] by {
                        assert(is_sound(extents[a], shape[a]));
                    }
                    assert(slab.within(shape));
                }
                if slab.within(shape) {
                    assert forall|a: int| 0 <= a < extents.len() implies is_sound(
                        #[trigger] extents[a],
                        shape[a],
                    ) by {
                        assert(slab.start[a] + slab.count[a] <= shape[a]);
                    }
                }
            },
            Err(_) => {
                let a = choose|a: int|
                    0 <= a < extents.len() && taken(#[trigger] extents[a], shape[a], a as nat)
                        is Err;
                assert(!is_sound(extents[a], shape[a]));
            },
        }
    }
}

/// An accepted selection takes along each axis the elements that its extent picks, and
/// no others.
pub proof fn a_selection_takes_what_its_extents_pick(
    extents: Seq<Extent>,
    path: Seq<char>,
    shape: Seq<u64>,
    a: int,
    x: int,
)
    requires
        selected_block(Some(extents), path, shape) is Ok,
        0 <= a < shape.len(),
        0 <= x < shape[a],
    ensures
        ({
            let slab = selected_block(Some(extents), path, shape)->Ok_0;
            &&& slab.start.len() == shape.len()
            &&& slab.count.len() == shape.len()
            &&& slab.start[a] <= x < slab.start[a] + slab.count[a] <==> picks(extents[a], x)
            &&& slab.start[a] + slab.count[a] <= shape[a]
        }),
{
    let none = SlabView { start: Seq::empty(), count: Seq::empty() };
    lemma_taken(extents, shape, none);
    sound_selections_are_accepted(extents, path, shape);
    let slab = taken_from(extents, shape, none)->Ok_0;
    assert(is_sound(extents[a], shape[a]));
    assert(slab.start[a] == slab.start[a]);
}

/// Asking for everything takes every element of every axis.
pub proof fn everything_is_every_element(path: Seq<char>, shape: Seq<u64>, a: int)
    requires
        0 <= a < shape.len(),
    ensures
        ({
            let slab = selected_block(None, path, shape);
            &&& slab is Ok
            &&& slab->Ok_0.start.len() == shape.len()
            &&& slab->Ok_0.count.len() == shape.len()
            &&& slab->Ok_0.start[a] == 0
            &&& slab->Ok_0.count[a] == shape[a]
        }),
{
}

/// A number is one element; a range is what lies in it, from the first element where it
/// has no start and to the last where it has no end.
pub proof fn ranges_mean_what_they_say(
    i: usize,
    both: Range<usize>,
    from: RangeFrom<usize>,
    to: RangeTo<usize>,
    x: int,
)
    requires
        0 <= x,
    ensures
        picks(<Extent as FromSpec<usize>>::from_spec(i), x) <==> x == i,
        picks(<Extent as FromSpec<Range<usize>>>::from_spec(both), x) <==> both.start <= x
            < both.end,
        picks(<Extent as FromSpec<RangeFrom<usize>>>::from_spec(from), x) <==> from.start <= x,
        picks(<Extent as FromSpec<RangeTo<usize>>>::from_spec(to), x) <==> x < to.end,
{
}

/// The full range, and nothing at all, ask for everything; a list asks for its extents.
pub proof fn no_bounds_mean_everything(full: RangeFull, extents: Vec<Extent>)
    ensures
        <Extents as FromSpec<RangeFull>>::from_spec(full)@ is None,
        <Extents as FromSpec<()>>::from_spec(())@ is None,
        <Extents as FromSpec<Vec<Extent>>>::from_spec(extents)@ == Some(extents@),
{
}

/// A range, as a sound selection, takes every element in turn.
pub proof fn ranges_take_every_element(
    i: usize,
    both: Range<usize>,
    from: RangeFrom<usize>,
    to: RangeTo<usize>,
    len: u64,
)
    ensures
        is_sound(<Extent as FromSpec<usize>>::from_spec(i), len) <==> i < len,
        is_sound(<Extent as FromSpec<Range<usize>>>::from_spec(both), len) <==> both.start
            <= both.end <= len,
        is_sound(<Extent as FromSpec<RangeFrom<usize>>>::from_spec(from), len) <==> from.start
            <= len,
        is_sound(<Extent as FromSpec<RangeTo<usize>>>::from_spec(to), len) <==> to.end <= len,
{
}

} // verus!
