//! The dimensions netCDF invents for axes without a scale.
//!
//! An instrument writes HDF5 directly, and attaches no dimension scale to some
//! axes. netCDF still needs a dimension for every axis, so it invents one and
//! calls it `phony_dim_N`.
//!
//! * One counter runs over the whole file. It starts behind the dimensions that
//!   have a name, and a group's children are numbered before its own variables.
//! * One dimension serves every axis of its length in its own group, but never
//!   two axes of one variable, and never an axis in another group. An axis with
//!   no scale of its own lands on a named dimension of the right length.
//! * A growable axis matches only another growable one.
//! * netCDF has no fixed dimension of length zero, so an empty axis becomes an
//!   unlimited dimension, and never serves a second empty axis.

use vstd::prelude::*;
use vstd::slice::slice_to_vec;

use crate::context::Ctx;
#[allow(unused_imports)]
use crate::context::CtxView;
use crate::error::{Error, Result};
#[allow(unused_imports)]
use crate::error::{seen, ErrorView};
use crate::heap::HeapCache;
use crate::index::{DatasetIndex, GroupIndex, Hdf5File};
#[allow(unused_imports)]
use crate::index::datasets_of;
use crate::netcdf::{
    build_group, collect_dimension_scales, find_scale, insert_dimension, resolve_attached,
    visible_attributes, DimensionScale, NcDimension, NcGroup, NcVariable,
};
#[allow(unused_imports)]
use crate::netcdf::{
    attached_dimensions, axes_read, dimension_of, dimensions_among, dimensions_read,
    every_axis_gets_a_name, group_agrees, group_of, group_reads, groups_of, groups_read,
    lemma_axes_read, lemma_groups_read, place_of, scales_of, shown, shown_among, sorted_dimensions,
    variables_agree, variables_among, visible_of, DimensionScaleView, NcDimensionView, NcGroupView, NcVariableView,
};
use crate::source::ByteSource;
#[allow(unused_imports)]
use crate::source::agrees;
use crate::text::numbered;
#[allow(unused_imports)]
use crate::text::decimal;
#[allow(unused_imports)]
use crate::views::views;

verus! {

broadcast use crate::views::group_views;

// ── axes ───────────────────────────────────────────────────────────────────

/// One axis of a variable.
#[derive(Debug, Clone, Copy, PartialEq, Eq, Structural)]
pub struct Axis {
    /// Current length.
    pub len: u64,
    /// Whether the axis can grow.
    pub growable: bool,
}

/// The axes of a dataset.
pub open spec fn axes_of(d: DatasetIndex) -> Seq<Axis> {
    Seq::new(
        d.shape@.len(),
        |a: int|
            Axis {
                len: d.shape@[a],
                growable: match d.max_shape {
                    Some(m) => a < m@.len() && m@[a] == u64::MAX,
                    None => false,
                },
            },
    )
}

/// A dimension can stand for an axis.
pub open spec fn serves(d: NcDimensionView, axis: Axis) -> bool {
    axis.len > 0 && d.len == axis.len && d.is_unlimited == axis.growable
}

/// The place from `i` on of a dimension that can stand for an axis and that the
/// variable does not use yet.
pub open spec fn place_serving(dims: Seq<NcDimensionView>, axis: Axis, used: Seq<int>, i: int) -> Option<
    int,
>
    decreases dims.len() - i,
{
    if i >= dims.len() {
        None
    } else if serves(dims[i], axis) && !used.contains(i) {
        Some(i)
    } else {
        place_serving(dims, axis, used, i + 1)
    }
}

/// The dimension invented for an axis.
pub open spec fn invented(axis: Axis, number: u64) -> NcDimensionView {
    NcDimensionView {
        name: "phony_dim_"@ + decimal(number as nat),
        len: axis.len,
        is_unlimited: axis.growable || axis.len == 0,
        id: Some(number as i64),
        has_coordinate_variable: false,
        is_phony: true,
    }
}

/// The dimensions of a group, the next number, and the places of the dimensions
/// that the axes of one variable use.
pub struct Assigned {
    pub dims: Seq<NcDimensionView>,
    pub next: u64,
    pub used: Seq<int>,
}

/// Find or invent a dimension for each axis that has none yet.
pub open spec fn assign(state: Assigned, axes: Seq<Axis>) -> std::result::Result<
    Assigned,
    ErrorView,
>
    decreases axes.len() - state.used.len(),
{
    if state.used.len() >= axes.len() {
        Ok(state)
    } else {
        let axis = axes[state.used.len() as int];
        match place_serving(state.dims, axis, state.used, 0) {
            Some(i) => assign(Assigned { used: state.used.push(i), ..state }, axes),
            None => if state.next >= i64::MAX {
                Err(ErrorView::Malformed("more dimensions than can be numbered"@))
            } else {
                assign(
                    Assigned {
                        dims: state.dims.push(invented(axis, state.next)),
                        next: (state.next + 1) as u64,
                        used: state.used.push(state.dims.len() as int),
                    },
                    axes,
                )
            },
        }
    }
}

/// The names of the dimensions at those places.
pub open spec fn names_at(dims: Seq<NcDimensionView>, used: Seq<int>) -> Seq<Seq<char>> {
    Seq::new(used.len(), |a: int| dims[used[a]].name)
}

/// Every axis of a variable ends on a dimension of its own that has its length,
/// and that can grow if and only if the axis can or is empty. No dimension that
/// was there before is changed.
pub proof fn every_axis_ends_on_a_dimension_of_its_length(state: Assigned, axes: Seq<Axis>)
    requires
        state.used.len() <= axes.len(),
        forall|a: int|
            0 <= a < state.used.len() ==> 0 <= #[trigger] state.used[a] < state.dims.len()
                && stands_for(state.dims[state.used[a]], axes[a]),
        forall|a: int, b: int|
            0 <= a < b < state.used.len() ==> #[trigger] state.used[a] != #[trigger] state.used[b],
    ensures
        assign(state, axes) matches Ok(end) ==> {
            &&& end.used.len() == axes.len()
            &&& end.dims.len() >= state.dims.len()
            &&& end.dims.take(state.dims.len() as int) == state.dims
            &&& forall|a: int|
                0 <= a < axes.len() ==> 0 <= #[trigger] end.used[a] < end.dims.len() && stands_for(
                    end.dims[end.used[a]],
                    axes[a],
                )
            &&& forall|a: int, b: int|
                0 <= a < b < axes.len() ==> #[trigger] end.used[a] != #[trigger] end.used[b]
        },
    decreases axes.len() - state.used.len(),
{
    if state.used.len() < axes.len() {
        let axis = axes[state.used.len() as int];
        lemma_place_serving(state.dims, axis, state.used, 0);
        match place_serving(state.dims, axis, state.used, 0) {
            Some(i) => {
                let next = Assigned { used: state.used.push(i), ..state };
                assert forall|a: int, b: int| 0 <= a < b < next.used.len() implies (
                #[trigger] next.used[a]) != #[trigger] next.used[b] by {
                    if b == state.used.len() {
                        assert(state.used.contains(state.used[a]));
                    }
                }
                every_axis_ends_on_a_dimension_of_its_length(next, axes);
            },
            None => {
                let next = Assigned {
                    dims: state.dims.push(invented(axis, state.next)),
                    next: (state.next + 1) as u64,
                    used: state.used.push(state.dims.len() as int),
                };
                every_axis_ends_on_a_dimension_of_its_length(next, axes);
                match assign(next, axes) {
                    Ok(end) => {
                        assert(end.dims.take(state.dims.len() as int) =~= next.dims.take(
                            state.dims.len() as int,
                        )) by {
                            let n = state.dims.len() as int;
                            assert forall|i: int| 0 <= i < n implies end.dims[i] == next.dims[i] by {
                                assert(end.dims.take(n + 1)[i] == next.dims[i]);
                            }
                        }
                        assert(next.dims.take(state.dims.len() as int) =~= state.dims);
                    },
                    Err(_) => {},
                }
            },
        }
    } else {
        assert(state.dims.take(state.dims.len() as int) =~= state.dims);
    }
}

/// A dimension has the length of an axis, and can grow if and only if the axis
/// can or is empty.
pub open spec fn stands_for(d: NcDimensionView, axis: Axis) -> bool {
    d.len == axis.len && d.is_unlimited == (axis.growable || axis.len == 0)
}

proof fn lemma_place_serving(dims: Seq<NcDimensionView>, axis: Axis, used: Seq<int>, i: int)
    requires
        0 <= i <= dims.len(),
    ensures
        place_serving(dims, axis, used, i) matches Some(k) ==> i <= k < dims.len() && serves(
            dims[k],
            axis,
        ) && !used.contains(k),
    decreases dims.len() - i,
{
    if i < dims.len() && !(serves(dims[i], axis) && !used.contains(i)) {
        lemma_place_serving(dims, axis, used, i + 1);
    }
}

// ── groups ─────────────────────────────────────────────────────────────────

/// The variables of a group so far, its dimensions and the next number.
pub struct Naming {
    pub variables: Seq<NcVariableView>,
    pub dims: Seq<NcDimensionView>,
    pub next: u64,
}

/// A dataset as a variable with those dimensions.
pub open spec fn variable_with(
    ctx: CtxView,
    d: DatasetIndex,
    dimensions: Seq<Seq<char>>,
    is_coordinate: bool,
) -> NcVariableView {
    NcVariableView {
        name: d.name@,
        path: d.path@,
        dimensions,
        shape: d.shape@,
        attributes: visible_of(ctx, d.path@, d.attributes@),
        attributes_complete: d.attributes_complete,
        is_coordinate,
    }
}

/// One more dataset of a group.
pub open spec fn name_one(
    ctx: CtxView,
    d: DatasetIndex,
    scales: Seq<DimensionScaleView>,
    before: Naming,
) -> std::result::Result<Naming, ErrorView> {
    let place = place_of(scales, d.address, 0);
    if place is Some && !scales[place->Some_0].is_variable {
        Ok(before)
    } else {
        match attached_dimensions(ctx, d, scales, place is Some) {
            Err(e) => Err(e),
            Ok(Some(names)) => Ok(
                Naming {
                    variables: before.variables.push(variable_with(ctx, d, names, place is Some)),
                    ..before
                },
            ),
            Ok(None) => match assign(
                Assigned { dims: before.dims, next: before.next, used: Seq::empty() },
                axes_of(d),
            ) {
                Err(e) => Err(e),
                Ok(a) => Ok(
                    Naming {
                        variables: before.variables.push(
                            variable_with(ctx, d, names_at(a.dims, a.used), place is Some),
                        ),
                        dims: a.dims,
                        next: a.next,
                    },
                ),
            },
        }
    }
}

/// The first `n` datasets of a group.
pub open spec fn name_among(
    ctx: CtxView,
    datasets: Seq<DatasetIndex>,
    scales: Seq<DimensionScaleView>,
    n: int,
    start: Naming,
) -> std::result::Result<Naming, ErrorView>
    decreases n,
{
    if n <= 0 {
        Ok(start)
    } else {
        match name_among(ctx, datasets, scales, n - 1, start) {
            Err(e) => Err(e),
            Ok(before) => name_one(ctx, datasets[n - 1], scales, before),
        }
    }
}

/// A group whose axes all have a dimension, and the next number. Its children
/// are numbered before its own variables.
pub open spec fn named_group(
    ctx: CtxView,
    g: GroupIndex,
    scales: Seq<DimensionScaleView>,
    next: u64,
) -> std::result::Result<(NcGroupView, u64), ErrorView>
    decreases g,
{
    match named_groups(ctx, g.groups@, scales, next) {
        Err(e) => Err(e),
        Ok((groups, next)) => {
            let n = g.datasets@.len() as int;
            let start = Naming {
                variables: Seq::empty(),
                dims: sorted_dimensions(dimensions_among(g.datasets@, scales, n)),
                next,
            };
            match name_among(ctx, g.datasets@, scales, n, start) {
                Err(e) => Err(e),
                Ok(end) => Ok(
                    (
                        NcGroupView {
                            name: g.name@,
                            path: g.path@,
                            dimensions: end.dims,
                            variables: end.variables,
                            attributes: visible_of(ctx, g.path@, g.attributes@),
                            groups,
                        },
                        end.next,
                    ),
                ),
            }
        },
    }
}

/// Groups whose axes all have a dimension, and the next number.
pub open spec fn named_groups(
    ctx: CtxView,
    gs: Seq<GroupIndex>,
    scales: Seq<DimensionScaleView>,
    next: u64,
) -> std::result::Result<(Seq<NcGroupView>, u64), ErrorView>
    decreases gs,
{
    if gs.len() == 0 {
        Ok((Seq::empty(), next))
    } else {
        match named_groups(ctx, gs.drop_last(), scales, next) {
            Err(e) => Err(e),
            Ok((before, next)) => match named_group(ctx, gs.last(), scales, next) {
                Err(e) => Err(e),
                Ok((g, next)) => Ok((before.push(g), next)),
            },
        }
    }
}

/// The first number behind the named dimensions: behind their count, and behind
/// every id that one of the first `n` has.
pub open spec fn first_number(scales: Seq<DimensionScaleView>, n: int) -> u64
    decreases n,
{
    if n <= 0 {
        scales.len() as u64
    } else {
        let before = first_number(scales, n - 1);
        match scales[n - 1].id {
            Some(id) => if id >= before {
                (id + 1) as u64
            } else {
                before
            },
            None => before,
        }
    }
}

// ── building ───────────────────────────────────────────────────────────────

fn is_used(used: &Vec<usize>, place: usize) -> (r: bool)
    ensures
        r == places(used@).contains(place as int),
{
    let ghost all = places(used@);
    let mut i: usize = 0;
    while i < used.len()
        invariant
            i <= used@.len(),
            all == places(used@),
            forall|j: int| 0 <= j < i ==> #[trigger] all[j] != place,
        decreases used@.len() - i,
    {
        if used[i] == place {
            assert(all[i as int] == place);
            return true;
        }
        i = i + 1;
    }
    false
}

/// Places as integers.
pub open spec fn places(used: Seq<usize>) -> Seq<int> {
    Seq::new(used.len(), |i: int| used[i] as int)
}

fn find_serving(dims: &Vec<NcDimension>, axis: Axis, used: &Vec<usize>) -> (r: Option<usize>)
    ensures
        match place_serving(views(dims@), axis, places(used@), 0) {
            Some(i) => r is Some && r->Some_0 == i && 0 <= i < dims@.len(),
            None => r is None,
        },
{
    let ghost dv = views(dims@);
    let ghost uv = places(used@);
    let mut i: usize = 0;
    while i < dims.len()
        invariant
            i <= dims@.len(),
            dv == views(dims@),
            uv == places(used@),
            place_serving(dv, axis, uv, 0) == place_serving(dv, axis, uv, i as int),
        decreases dims@.len() - i,
    {
        let d = &dims[i];
        if axis.len > 0 && d.len == axis.len && d.is_unlimited == axis.growable && !is_used(
            used,
            i,
        ) {
            return Some(i);
        }
        i = i + 1;
    }
    None
}

fn axis_of(dataset: &DatasetIndex, a: usize) -> (r: Axis)
    requires
        a < dataset.shape@.len(),
    ensures
        r == axes_of(*dataset)[a as int],
{
    let growable: bool = match &dataset.max_shape {
        Some(m) => a < m.len() && m[a] == u64::MAX,
        None => false,
    };
    Axis { len: dataset.shape[a], growable }
}

/// Find or invent a dimension for each axis of a dataset.
fn assign_axes(dataset: &DatasetIndex, dims: &mut Vec<NcDimension>, next: &mut u64) -> (r: Result<
    Vec<String>,
>)
    ensures
        ({
            let want = assign(
                Assigned { dims: views(old(dims)@), next: *old(next), used: Seq::empty() },
                axes_of(*dataset),
            );
            match r {
                Ok(names) => want matches Ok(a) && views(final(dims)@) == a.dims && *final(next)
                    == a.next && views(names@) == names_at(a.dims, a.used),
                Err(e) => want matches Err(w) && e@ == w,
            }
        }),
{
    let ghost axes = axes_of(*dataset);
    let ghost want = assign(
        Assigned { dims: views(dims@), next: *next, used: Seq::empty() },
        axes,
    );
    let mut used: Vec<usize> = Vec::new();
    assert(places(used@) =~= Seq::<int>::empty());
    while used.len() < dataset.shape.len()
        invariant
            axes == axes_of(*dataset),
            used@.len() <= axes.len(),
            want == assign(
                Assigned { dims: views(old(dims)@), next: *old(next), used: Seq::empty() },
                axes_of(*dataset),
            ),
            want == assign(
                Assigned { dims: views(dims@), next: *next, used: places(used@) },
                axes,
            ),
            forall|a: int| 0 <= a < used@.len() ==> #[trigger] used@[a] < dims@.len(),
        decreases axes.len() - used@.len(),
    {
        let axis: Axis = axis_of(dataset, used.len());
        let ghost before = places(used@);
        match find_serving(dims, axis, &used) {
            Some(i) => {
                used.push(i);
                assert(places(used@) =~= before.push(i as int));
            },
            None => {
                let number: u64 = *next;
                if number >= i64::MAX as u64 {
                    return Err(Error::malformed("more dimensions than can be numbered"));
                }
                let place: usize = dims.len();
                dims.push(
                    NcDimension {
                        name: numbered("phony_dim_", number),
                        len: axis.len,
                        is_unlimited: axis.growable || axis.len == 0,
                        id: Some(number as i64),
                        has_coordinate_variable: false,
                        is_phony: true,
                    },
                );
                used.push(place);
                assert(places(used@) =~= before.push(place as int));
                *next = number + 1;
            },
        }
    }
    let mut names: Vec<String> = Vec::new();
    let ghost all = names_at(views(dims@), places(used@));
    while names.len() < used.len()
        invariant
            all == names_at(views(dims@), places(used@)),
            names@.len() <= used@.len(),
            forall|a: int| 0 <= a < used@.len() ==> #[trigger] used@[a] < dims@.len(),
            views(names@) == all.take(names@.len() as int),
        decreases used@.len() - names@.len(),
    {
        names.push(dims[used[names.len()]].name.clone());
        assert(views(names@) =~= all.take(names@.len() as int));
    }
    assert(views(names@) =~= all);
    Ok(names)
}

/// The dimensions of a group that have a name, in order.
fn named_dimensions(group: &GroupIndex, scales: &Vec<DimensionScale>) -> (r: Vec<NcDimension>)
    ensures
        views(r@) == sorted_dimensions(
            dimensions_among(group.datasets@, views(scales@), group.datasets@.len() as int),
        ),
{
    let ghost sv = views(scales@);
    let mut dims: Vec<NcDimension> = Vec::new();
    let mut n: usize = 0;
    while n < group.datasets.len()
        invariant
            n <= group.datasets@.len(),
            sv == views(scales@),
            views(dims@) == sorted_dimensions(dimensions_among(group.datasets@, sv, n as int)),
        decreases group.datasets@.len() - n,
    {
        if let Some(i) = find_scale(scales, group.datasets[n].address) {
            let scale = &scales[i];
            let d = NcDimension {
                name: scale.name.clone(),
                len: scale.len,
                is_unlimited: scale.is_unlimited,
                id: scale.id,
                has_coordinate_variable: scale.is_variable,
                is_phony: false,
            };
            proof {
                let before = dimensions_among(group.datasets@, sv, n as int);
                assert(before.push(d@).drop_last() =~= before);
                assert(d@ == dimension_of(sv[i as int]));
            }
            insert_dimension(&mut dims, d);
        }
        n = n + 1;
    }
    dims
}

/// Turn one HDF5 group into a netCDF group whose axes all have a dimension.
pub fn build_named_group<S: ByteSource + ?Sized>(
    ctx: Ctx<'_, S>,
    group: &GroupIndex,
    scales: &Vec<DimensionScale>,
    heaps: &mut HeapCache,
    next: &mut u64,
) -> (r: Result<NcGroup>)
    requires
        old(heaps).faithful(ctx@),
    ensures
        final(heaps).faithful(ctx@),
        ({
            let want = named_group(ctx@, *group, views(scales@), *old(next));
            match r {
                Ok(g) => {
                    &&& want is Ok
                    &&& group_agrees(
                        ctx@,
                        g@,
                        want->Ok_0.0,
                        *group,
                        views(scales@),
                        ctx.dependable(),
                    )
                    &&& *final(next) == want->Ok_0.1
                },
                Err(e) => agrees(
                    Err(e@),
                    want,
                    ctx.dependable() || !group_reads(ctx@, *group, views(scales@)),
                ),
            }
        }),
    decreases *group,
{
    let ghost sv = views(scales@);
    let ghost want = named_group(ctx@, *group, sv, *next);
    let ghost first = *next;
    let ghost gs = group.groups@;
    let mut groups: Vec<NcGroup> = Vec::new();
    let mut k: usize = 0;
    assert(gs.take(0) =~= Seq::<GroupIndex>::empty());
    while k < group.groups.len()
        invariant
            k <= gs.len(),
            gs == group.groups@,
            sv == views(scales@),
            first == *old(next),
            want == named_group(ctx@, *group, sv, first),
            heaps.faithful(ctx@),
            named_groups(ctx@, gs.take(k as int), sv, first) is Ok,
            *next == named_groups(ctx@, gs.take(k as int), sv, first)->Ok_0.1,
            groups@.len() == k == named_groups(ctx@, gs.take(k as int), sv, first)->Ok_0.0.len(),
            forall|i: int|
                0 <= i < k ==> group_agrees(
                    ctx@,
                    (#[trigger] groups@[i])@,
                    named_groups(ctx@, gs.take(k as int), sv, first)->Ok_0.0[i],
                    gs[i],
                    sv,
                    ctx.dependable(),
                ),
        decreases gs.len() - k,
    {
        proof {
            assert(decreases_to!(*group => group.groups));
            assert(decreases_to!(group.groups => group.groups@));
            assert(decreases_to!(group.groups@ => group.groups@[k as int]));
            assert(gs.take(k + 1).drop_last() =~= gs.take(k as int));
            assert(gs.take(k + 1).last() == gs[k as int]);
        }
        match build_named_group(ctx, &group.groups[k], scales, heaps, next) {
            Ok(g) => {
                groups.push(g);
            },
            Err(e) => {
                proof {
                    lemma_named_groups_stop(ctx@, gs, sv, first, k + 1);
                    if groups_read(ctx@, gs.take(k + 1), sv) {
                        lemma_groups_read(ctx@, gs, sv, k + 1);
                    }
                }
                return Err(e);
            },
        }
        k = k + 1;
    }
    assert(gs.take(k as int) =~= gs);
    let mut dims = named_dimensions(group, scales);
    let mut variables: Vec<NcVariable> = Vec::new();
    let ghost total = group.datasets@.len() as int;
    let ghost start = Naming { variables: Seq::empty(), dims: views(dims@), next: *next };
    let mut n: usize = 0;
    while n < group.datasets.len()
        invariant
            n <= group.datasets@.len() == total,
            sv == views(scales@),
            first == *old(next),
            want == named_group(ctx@, *group, sv, first),
            named_groups(ctx@, group.groups@, sv, first) is Ok,
            start.next == named_groups(ctx@, group.groups@, sv, first)->Ok_0.1,
            start.variables == Seq::<NcVariableView>::empty(),
            start.dims == sorted_dimensions(dimensions_among(group.datasets@, sv, total)),
            heaps.faithful(ctx@),
            name_among(ctx@, group.datasets@, sv, n as int, start) is Ok,
            views(dims@) == name_among(ctx@, group.datasets@, sv, n as int, start)->Ok_0.dims,
            *next == name_among(ctx@, group.datasets@, sv, n as int, start)->Ok_0.next,
            variables_agree(
                ctx@,
                views(variables@),
                name_among(ctx@, group.datasets@, sv, n as int, start)->Ok_0.variables,
                shown_among(group.datasets@, sv, n as int),
                ctx.dependable(),
            ),
        decreases group.datasets@.len() - n,
    {
        let dataset = &group.datasets[n];
        let ghost so_far = name_among(ctx@, group.datasets@, sv, n as int, start)->Ok_0;
        assert(name_among(ctx@, group.datasets@, sv, n + 1, start) == name_one(
            ctx@,
            group.datasets@[n as int],
            sv,
            so_far,
        ));
        let place: Option<usize> = find_scale(scales, dataset.address);
        let is_variable: bool = match place {
            Some(i) => scales[i].is_variable,
            None => true,
        };
        if is_variable {
            let is_coordinate: bool = place.is_some();
            let names = match resolve_attached(ctx, dataset, scales, heaps, is_coordinate) {
                Ok(Some(names)) => names,
                Ok(None) => match assign_axes(dataset, &mut dims, next) {
                    Ok(names) => names,
                    Err(e) => {
                        proof {
                            lemma_naming_stops(ctx@, group.datasets@, sv, n + 1, total, start);
                        }
                        return Err(e);
                    },
                },
                Err(e) => {
                    proof {
                        lemma_naming_stops(ctx@, group.datasets@, sv, n + 1, total, start);
                        if axes_read(ctx@, group.datasets@, sv, n + 1) {
                            lemma_axes_read(ctx@, group.datasets@, sv, n + 1, total);
                        }
                    }
                    return Err(e);
                },
            };
            let v = NcVariable {
                name: dataset.name.clone(),
                path: dataset.path.clone(),
                dimensions: names,
                shape: slice_to_vec(dataset.shape.as_slice()),
                attributes: visible_attributes(ctx, dataset.path.as_str(), &dataset.attributes),
                attributes_complete: dataset.attributes_complete,
                is_coordinate,
            };
            let ghost before = views(variables@);
            variables.push(v);
            assert(views(variables@) =~= before.push(v@));
        }
        n = n + 1;
    }
    let out = NcGroup {
        name: group.name.clone(),
        path: group.path.clone(),
        dimensions: dims,
        variables,
        attributes: visible_attributes(ctx, group.path.as_str(), &group.attributes),
        groups,
    };
    proof {
        let w = want->Ok_0.0;
        let got = out@;
        assert forall|i: int| 0 <= i < got.groups.len() implies group_agrees(
            ctx@,
            #[trigger] got.groups[i],
            w.groups[i],
            group.groups@[i],
            sv,
            ctx.dependable(),
        ) by {
            assert(got.groups[i] == groups@[i]@);
        }
    }
    Ok(out)
}

proof fn lemma_naming_stops(
    ctx: CtxView,
    datasets: Seq<DatasetIndex>,
    scales: Seq<DimensionScaleView>,
    m: int,
    n: int,
    start: Naming,
)
    requires
        0 <= m <= n,
    ensures
        name_among(ctx, datasets, scales, m, start) is Err ==> name_among(
            ctx,
            datasets,
            scales,
            n,
            start,
        ) == name_among(ctx, datasets, scales, m, start),
    decreases n,
{
    if m < n {
        lemma_naming_stops(ctx, datasets, scales, m, n - 1, start);
    }
}

proof fn lemma_named_groups_stop(
    ctx: CtxView,
    gs: Seq<GroupIndex>,
    scales: Seq<DimensionScaleView>,
    next: u64,
    m: int,
)
    requires
        0 <= m <= gs.len(),
    ensures
        named_groups(ctx, gs.take(m), scales, next) is Err ==> named_groups(ctx, gs, scales, next)
            == named_groups(ctx, gs.take(m), scales, next),
    decreases gs.len() - m,
{
    if m < gs.len() {
        lemma_named_groups_stop(ctx, gs, scales, next, m + 1);
        assert(gs.take(m + 1).drop_last() =~= gs.take(m));
    } else {
        assert(gs.take(m) =~= gs);
    }
}

fn numbering_start(scales: &Vec<DimensionScale>) -> (r: u64)
    ensures
        r == first_number(views(scales@), scales@.len() as int),
{
    let ghost sv = views(scales@);
    let mut next: u64 = scales.len() as u64;
    let mut n: usize = 0;
    while n < scales.len()
        invariant
            n <= scales@.len(),
            sv == views(scales@),
            next == first_number(sv, n as int),
        decreases scales@.len() - n,
    {
        if let Some(id) = scales[n].id {
            if id >= 0 && id as u64 >= next {
                next = id as u64 + 1;
            }
        }
        n = n + 1;
    }
    next
}

/// The netCDF view of an HDF5 tree.
///
/// A tree without any dimension scale has no dimensions at all: each variable
/// calls its axes by their number. A tree with one is a netCDF file, in which
/// every axis has a dimension, and one is invented where none is attached.
pub open spec fn root_of(ctx: CtxView, root: GroupIndex) -> std::result::Result<
    NcGroupView,
    ErrorView,
> {
    let scales = scales_of(datasets_of(root));
    if scales.len() == 0 {
        group_of(ctx, root, scales)
    } else {
        match named_group(ctx, root, scales, first_number(scales, scales.len() as int)) {
            Ok((g, _)) => Ok(g),
            Err(e) => Err(e),
        }
    }
}

/// The netCDF view is the one wanted of an HDF5 tree, up to attributes that could not
/// be read, or it fails as wanted. Where the storage may fail, it may also fail on
/// the way, if there is anything to read.
pub open spec fn root_agrees(
    ctx: CtxView,
    root: GroupIndex,
    r: std::result::Result<NcGroupView, ErrorView>,
    dependable: bool,
) -> bool {
    let scales = scales_of(datasets_of(root));
    let want = root_of(ctx, root);
    match r {
        Ok(g) => want is Ok && group_agrees(ctx, g, want->Ok_0, root, scales, dependable),
        Err(e) => agrees(Err(e), want, dependable || !group_reads(ctx, root, scales)),
    }
}

/// Turn an HDF5 tree into the netCDF view of it.
pub fn build_root<S: ByteSource + ?Sized>(hdf5: &Hdf5File<S>) -> (r: Result<NcGroup>)
    ensures
        root_agrees(hdf5.context(), hdf5.root, seen(r), hdf5.source.dependable()),
{
    // Dimension scales are referenced by object header address from anywhere in
    // the file, so the scan has to cover the whole tree before any variable can
    // resolve its axes.
    let scales = collect_dimension_scales(hdf5);
    let mut heaps = HeapCache::new();
    if scales.len() == 0 {
        build_group(hdf5.ctx(), hdf5.root(), &scales, &mut heaps)
    } else {
        let mut next: u64 = numbering_start(&scales);
        build_named_group(hdf5.ctx(), hdf5.root(), &scales, &mut heaps, &mut next)
    }
}

// ── what the view shows ────────────────────────────────────────────────────

/// A variable shows a dataset, and has a dimension name for each axis.
pub open spec fn shows(v: NcVariableView, d: DatasetIndex, scales: Seq<DimensionScaleView>) -> bool {
    &&& v.name == d.name@
    &&& v.path == d.path@
    &&& v.shape == d.shape@
    &&& v.dimensions.len() == d.shape@.len()
    &&& v.is_coordinate == (place_of(scales, d.address, 0) is Some)
}

/// The variables show the datasets, one by one and in order.
pub open spec fn show_all(
    vs: Seq<NcVariableView>,
    ds: Seq<DatasetIndex>,
    scales: Seq<DimensionScaleView>,
) -> bool {
    vs.len() == ds.len() && forall|i: int| 0 <= i < vs.len() ==> shows(#[trigger] vs[i], ds[i], scales)
}

/// A group shows an HDF5 group: its name, its variables and, in the same way, its
/// groups.
pub open spec fn shows_group(
    g: NcGroupView,
    of: GroupIndex,
    scales: Seq<DimensionScaleView>,
) -> bool
    decreases of,
{
    &&& g.name == of.name@
    &&& g.path == of.path@
    &&& show_all(
        g.variables,
        shown_among(of.datasets@, scales, of.datasets@.len() as int),
        scales,
    )
    &&& shows_groups(g.groups, of.groups@, scales)
}

/// The groups show the HDF5 groups, one by one and in order.
pub open spec fn shows_groups(
    gs: Seq<NcGroupView>,
    of: Seq<GroupIndex>,
    scales: Seq<DimensionScaleView>,
) -> bool
    decreases of,
{
    if of.len() == 0 {
        gs.len() == 0
    } else {
        &&& gs.len() == of.len()
        &&& shows_groups(gs.drop_last(), of.drop_last(), scales)
        &&& shows_group(gs.last(), of.last(), scales)
    }
}

/// The netCDF view shows the whole HDF5 tree: every group, and every dataset but
/// for dimensions without a coordinate variable. Each variable names every axis.
pub proof fn the_view_shows_the_whole_tree(ctx: CtxView, root: GroupIndex)
    ensures
        root_of(ctx, root) matches Ok(g) ==> shows_group(g, root, scales_of(datasets_of(root))),
{
    let scales = scales_of(datasets_of(root));
    if scales.len() == 0 {
        lemma_group_shown(ctx, root, scales);
    } else {
        lemma_named_group_shown(ctx, root, scales, first_number(scales, scales.len() as int));
    }
}

proof fn lemma_group_shown(ctx: CtxView, g: GroupIndex, scales: Seq<DimensionScaleView>)
    ensures
        group_of(ctx, g, scales) matches Ok(v) ==> shows_group(v, g, scales),
    decreases g,
{
    lemma_variables_shown(ctx, g.datasets@, scales, g.datasets@.len() as int);
    lemma_groups_shown(ctx, g.groups@, scales);
}

proof fn lemma_groups_shown(ctx: CtxView, gs: Seq<GroupIndex>, scales: Seq<DimensionScaleView>)
    ensures
        groups_of(ctx, gs, scales) matches Ok(v) ==> shows_groups(v, gs, scales),
    decreases gs,
{
    if gs.len() > 0 {
        lemma_groups_shown(ctx, gs.drop_last(), scales);
        lemma_group_shown(ctx, gs.last(), scales);
        match (groups_of(ctx, gs.drop_last(), scales), group_of(ctx, gs.last(), scales)) {
            (Ok(before), Ok(g)) => {
                assert(before.push(g).drop_last() =~= before);
                lemma_as_many(before, gs.drop_last(), scales);
            },
            _ => {},
        }
    }
}

proof fn lemma_as_many(
    gs: Seq<NcGroupView>,
    of: Seq<GroupIndex>,
    scales: Seq<DimensionScaleView>,
)
    requires
        shows_groups(gs, of, scales),
    ensures
        gs.len() == of.len(),
{
}

proof fn lemma_variables_shown(
    ctx: CtxView,
    datasets: Seq<DatasetIndex>,
    scales: Seq<DimensionScaleView>,
    n: int,
)
    requires
        n <= datasets.len(),
    ensures
        variables_among(ctx, datasets, scales, n) matches Ok(vs) ==> show_all(
            vs,
            shown_among(datasets, scales, n),
            scales,
        ),
    decreases n,
{
    if n > 0 {
        lemma_variables_shown(ctx, datasets, scales, n - 1);
        let d = datasets[n - 1];
        every_axis_gets_a_name(ctx, d, scales, place_of(scales, d.address, 0) is Some);
    }
}

proof fn lemma_named_group_shown(
    ctx: CtxView,
    g: GroupIndex,
    scales: Seq<DimensionScaleView>,
    next: u64,
)
    ensures
        named_group(ctx, g, scales, next) matches Ok((v, _)) ==> shows_group(v, g, scales),
    decreases g,
{
    lemma_named_groups_shown(ctx, g.groups@, scales, next);
    match named_groups(ctx, g.groups@, scales, next) {
        Ok((_, next)) => {
            let n = g.datasets@.len() as int;
            let start = Naming {
                variables: Seq::empty(),
                dims: sorted_dimensions(dimensions_among(g.datasets@, scales, n)),
                next,
            };
            lemma_named_variables_shown(ctx, g.datasets@, scales, n, start);
        },
        Err(_) => {},
    }
}

proof fn lemma_named_groups_shown(
    ctx: CtxView,
    gs: Seq<GroupIndex>,
    scales: Seq<DimensionScaleView>,
    next: u64,
)
    ensures
        named_groups(ctx, gs, scales, next) matches Ok((v, _)) ==> shows_groups(v, gs, scales),
    decreases gs,
{
    if gs.len() > 0 {
        lemma_named_groups_shown(ctx, gs.drop_last(), scales, next);
        match named_groups(ctx, gs.drop_last(), scales, next) {
            Ok((before, next)) => {
                lemma_named_group_shown(ctx, gs.last(), scales, next);
                match named_group(ctx, gs.last(), scales, next) {
                    Ok((g, _)) => {
                        assert(before.push(g).drop_last() =~= before);
                        lemma_as_many(before, gs.drop_last(), scales);
                    },
                    Err(_) => {},
                }
            },
            Err(_) => {},
        }
    }
}

proof fn lemma_named_variables_shown(
    ctx: CtxView,
    datasets: Seq<DatasetIndex>,
    scales: Seq<DimensionScaleView>,
    n: int,
    start: Naming,
)
    requires
        n <= datasets.len(),
        start.variables.len() == 0,
    ensures
        name_among(ctx, datasets, scales, n, start) matches Ok(end) ==> show_all(
            end.variables,
            shown_among(datasets, scales, n),
            scales,
        ),
    decreases n,
{
    if n > 0 {
        lemma_named_variables_shown(ctx, datasets, scales, n - 1, start);
        let d = datasets[n - 1];
        every_axis_gets_a_name(ctx, d, scales, place_of(scales, d.address, 0) is Some);
        match name_among(ctx, datasets, scales, n - 1, start) {
            Ok(before) => {
                every_axis_ends_on_a_dimension_of_its_length(
                    Assigned { dims: before.dims, next: before.next, used: Seq::empty() },
                    axes_of(d),
                );
            },
            Err(_) => {},
        }
    }
}

/// Dimensions were added behind those that were there: each is an invented one,
/// and they are numbered one after the other.
pub open spec fn numbered_on(
    before: Seq<NcDimensionView>,
    first: u64,
    after: Seq<NcDimensionView>,
    next: u64,
) -> bool {
    &&& before.len() <= after.len()
    &&& after.take(before.len() as int) == before
    &&& next == first + (after.len() - before.len())
    &&& forall|i: int|
        before.len() <= i < after.len() ==> (#[trigger] after[i]).is_phony && after[i].id == Some(
            (first + (i - before.len())) as i64,
        ) && after[i].name == "phony_dim_"@ + decimal((first + (i - before.len())) as nat)
}

/// The dimensions that a group invents stand behind those that have a name, none
/// of which is lost, and their numbers run on without a gap.
pub proof fn invented_dimensions_are_numbered_in_order(
    ctx: CtxView,
    datasets: Seq<DatasetIndex>,
    scales: Seq<DimensionScaleView>,
    n: int,
    start: Naming,
)
    requires
        n <= datasets.len(),
    ensures
        name_among(ctx, datasets, scales, n, start) matches Ok(end) ==> numbered_on(
            start.dims,
            start.next,
            end.dims,
            end.next,
        ),
    decreases n,
{
    if n > 0 {
        invented_dimensions_are_numbered_in_order(ctx, datasets, scales, n - 1, start);
        match name_among(ctx, datasets, scales, n - 1, start) {
            Ok(before) => {
                let state = Assigned { dims: before.dims, next: before.next, used: Seq::empty() };
                lemma_assign_numbers(state, axes_of(datasets[n - 1]));
                match name_among(ctx, datasets, scales, n, start) {
                    Ok(end) => {
                        let k = start.dims.len() as int;
                        if end.dims != before.dims {
                            assert(end.dims.take(before.dims.len() as int) == before.dims);
                        } else {
                            assert(end.dims.take(before.dims.len() as int) =~= before.dims);
                        }
                        assert forall|i: int| 0 <= i < before.dims.len() implies end.dims[i]
                            == before.dims[i] by {
                            assert(end.dims.take(before.dims.len() as int)[i] == before.dims[i]);
                        }
                        assert(end.dims.take(k) =~= before.dims.take(k));
                    },
                    Err(_) => {},
                }
            },
            Err(_) => {},
        }
    } else {
        assert(start.dims.take(start.dims.len() as int) =~= start.dims);
    }
}

proof fn lemma_assign_numbers(state: Assigned, axes: Seq<Axis>)
    ensures
        assign(state, axes) matches Ok(end) ==> numbered_on(
            state.dims,
            state.next,
            end.dims,
            end.next,
        ),
    decreases axes.len() - state.used.len(),
{
    if state.used.len() < axes.len() {
        let axis = axes[state.used.len() as int];
        match place_serving(state.dims, axis, state.used, 0) {
            Some(i) => {
                lemma_assign_numbers(Assigned { used: state.used.push(i), ..state }, axes);
            },
            None => {
                let next = Assigned {
                    dims: state.dims.push(invented(axis, state.next)),
                    next: (state.next + 1) as u64,
                    used: state.used.push(state.dims.len() as int),
                };
                lemma_assign_numbers(next, axes);
                match assign(next, axes) {
                    Ok(end) => {
                        let k = state.dims.len() as int;
                        if state.next < i64::MAX {
                            assert forall|i: int| 0 <= i <= k implies end.dims[i] == next.dims[i] by {
                                assert(end.dims.take(k + 1)[i] == next.dims[i]);
                            }
                            assert(end.dims.take(k) =~= state.dims);
                        }
                    },
                    Err(_) => {},
                }
            },
        }
    } else {
        assert(state.dims.take(state.dims.len() as int) =~= state.dims);
    }
}

} // verus!
