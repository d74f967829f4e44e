//! Axes that nothing names: which dimension each gets.

use vstd::prelude::*;

#[allow(unused_imports)]
use crate::context::CtxView;
#[allow(unused_imports)]
use crate::error::ErrorView;
#[allow(unused_imports)]
use crate::index::{datasets_of, DatasetIndex, GroupIndex};
#[allow(unused_imports)]
use crate::laws::naming::{all_distinct, is_hidden, is_scale, lemma_roles, variables_before};
#[allow(unused_imports)]
use crate::netcdf::{
    attached_dimensions, dimensions_among, group_of, place_of, scales_of, sorted_dimensions,
    visible_of, DimensionScaleView, NcDimensionView, NcGroupView, NcVariableView,
};
#[allow(unused_imports)]
use crate::phony::{
    assign, axes_of, first_number, name_among, name_one, named_group, named_groups, names_at,
    place_serving, root_of, Assigned, Axis, Naming,
};
#[allow(unused_imports)]
use crate::text::decimal;

verus! {

// ── one axis ───────────────────────────────────────────────────────────────

/// An axis is as long as the dataset along it, and can grow where it has no limit.
pub proof fn an_axis_has_the_extent_of_its_dataset(d: DatasetIndex, a: int)
    requires
        0 <= a < d.shape@.len(),
    ensures
        axes_of(d).len() == d.shape@.len(),
        axes_of(d)[a].len == d.shape@[a],
        axes_of(d)[a].growable <==> (d.max_shape matches Some(m) && a < m@.len() && m@[a]
            == 0xffff_ffff_ffff_ffff),
{
}

/// Dimension `i` can serve an axis: it is as long, can grow as it can, and serves no
/// other axis of the same variable. An axis without elements is served by none.
pub open spec fn can_serve(state: Assigned, axis: Axis, i: int) -> bool {
    &&& 0 <= i < state.dims.len()
    &&& axis.len > 0
    &&& state.dims[i].len == axis.len
    &&& state.dims[i].is_unlimited <==> axis.growable
    &&& !state.used.contains(i)
}

proof fn lemma_place_serving(state: Assigned, axis: Axis, i: int)
    requires
        0 <= i,
    ensures
        match place_serving(state.dims, axis, state.used, i) {
            Some(k) => i <= k && can_serve(state, axis, k) && forall|j: int|
                i <= j < k ==> !#[trigger] can_serve(state, axis, j),
            None => forall|j: int| i <= j ==> !#[trigger] can_serve(state, axis, j),
        },
    decreases state.dims.len() - i,
{
    if i < state.dims.len() && !can_serve(state, axis, i) {
        lemma_place_serving(state, axis, i + 1);
    }
}

proof fn lemma_assign_keeps(state: Assigned, axes: Seq<Axis>)
    requires
        assign(state, axes) is Ok,
        state.used.len() <= axes.len(),
    ensures
        ({
            let end = assign(state, axes)->Ok_0;
            &&& end.used.len() == axes.len()
            &&& end.dims.len() >= state.dims.len()
            &&& forall|i: int| 0 <= i < state.used.len() ==> #[trigger] end.used[i]
                == state.used[i]
            &&& forall|i: int| 0 <= i < state.dims.len() ==> #[trigger] end.dims[i]
                == state.dims[i]
        }),
    decreases axes.len() - state.used.len(),
{
    if state.used.len() < axes.len() {
        let axis = axes[state.used.len() as int];
        match place_serving(state.dims, axis, state.used, 0) {
            Some(i) => {
                let next = Assigned { used: state.used.push(i), ..state };
                lemma_assign_keeps(next, axes);
                let end = assign(next, axes)->Ok_0;
                assert forall|j: int| 0 <= j < state.used.len() implies #[trigger] end.used[j]
                    == state.used[j] by {
                    assert(end.used[j] == next.used[j]);
                }
            },
            None => {
                let next = Assigned {
                    dims: state.dims.push(crate::phony::invented(axis, state.next)),
                    next: (state.next + 1) as u64,
                    used: state.used.push(state.dims.len() as int),
                };
                lemma_assign_keeps(next, axes);
                let end = assign(next, axes)->Ok_0;
                assert forall|j: int| 0 <= j < state.used.len() implies #[trigger] end.used[j]
                    == state.used[j] by {
                    assert(end.used[j] == next.used[j]);
                }
                assert forall|j: int| 0 <= j < state.dims.len() implies #[trigger] end.dims[j]
                    == state.dims[j] by {
                    assert(end.dims[j] == next.dims[j]);
                }
            },
        }
    }
}

/// The next axis of a variable gets the first dimension that can serve it. Where none
/// can, it gets a new one behind the others: with the next number in its name, its
/// length, and room to grow where it can grow or is empty.
pub proof fn an_axis_gets_the_first_dimension_that_serves(
    state: Assigned,
    axes: Seq<Axis>,
    i: int,
)
    requires
        assign(state, axes) is Ok,
        state.used.len() < axes.len(),
        state.next < 0x7fff_ffff_ffff_ffff,
    ensures
        ({
            let end = assign(state, axes)->Ok_0;
            let a = state.used.len() as int;
            let axis = axes[a];
            &&& end.used.len() == axes.len()
            &&& forall|j: int| 0 <= j < state.dims.len() ==> #[trigger] end.dims[j]
                == state.dims[j]
            &&& can_serve(state, axis, i) ==> can_serve(state, axis, end.used[a]) && end.used[a]
                <= i
            &&& (forall|j: int| !#[trigger] can_serve(state, axis, j)) ==> {
                let n = state.dims.len() as int;
                &&& end.used[a] == n
                &&& end.dims.len() > n
                &&& end.dims[n].name == "phony_dim_"@ + decimal(state.next as nat)
                &&& end.dims[n].len == axis.len
                &&& end.dims[n].is_unlimited <==> axis.growable || axis.len == 0
                &&& end.dims[n].id == Some(state.next as i64)
                &&& end.dims[n].is_phony
                &&& !end.dims[n].has_coordinate_variable
            }
        }),
{
    let a = state.used.len() as int;
    let axis = axes[a];
    lemma_place_serving(state, axis, 0);
    lemma_assign_keeps(state, axes);
    match place_serving(state.dims, axis, state.used, 0) {
        Some(k) => {
            let next = Assigned { used: state.used.push(k), ..state };
            lemma_assign_keeps(next, axes);
            assert(assign(next, axes)->Ok_0.used[a] == next.used[a]);
            assert(can_serve(state, axis, k));
        },
        None => {
            let next = Assigned {
                dims: state.dims.push(crate::phony::invented(axis, state.next)),
                next: (state.next + 1) as u64,
                used: state.used.push(state.dims.len() as int),
            };
            lemma_assign_keeps(next, axes);
            let end = assign(next, axes)->Ok_0;
            assert(end.used[a] == next.used[a]);
            assert(end.dims[state.dims.len() as int] == next.dims[state.dims.len() as int]);
        },
    }
}

// ── the first number ───────────────────────────────────────────────────────

proof fn lemma_first_number(scales: Seq<DimensionScaleView>, n: int, k: int)
    requires
        0 <= n <= scales.len() <= u64::MAX,
    ensures
        first_number(scales, n) >= scales.len(),
        0 <= k < n && scales[k].id is Some ==> first_number(scales, n) > scales[k].id->Some_0,
        first_number(scales, n) == scales.len() || exists|j: int|
            0 <= j < n && (#[trigger] scales[j]).id is Some && first_number(scales, n)
                == scales[j].id->Some_0 + 1,
    decreases n,
{
    if n > 0 {
        lemma_first_number(scales, n - 1, k);
        let before = first_number(scales, n - 1);
        match scales[n - 1].id {
            Some(id) => {
                if id >= before {
                    assert(scales[n - 1].id is Some);
                }
            },
            None => {},
        }
        if first_number(scales, n) == before && before != scales.len() {
            let j = choose|j: int|
                0 <= j < n - 1 && (#[trigger] scales[j]).id is Some && before
                    == scales[j].id->Some_0 + 1;
            assert(scales[j].id is Some);
        }
    }
}

/// Dimensions that are made up are numbered from the number of dimensions that are there
/// on, or from behind the largest number that one of them has, whichever is more.
pub proof fn numbers_start_behind_those_in_use(scales: Seq<DimensionScaleView>, k: int)
    requires
        0 <= k < scales.len() <= u64::MAX,
    ensures
        ({
            let n = first_number(scales, scales.len() as int);
            &&& n >= scales.len()
            &&& scales[k].id matches Some(id) ==> n > id
            &&& n == scales.len() || exists|j: int|
                0 <= j < scales.len() && (#[trigger] scales[j]).id is Some && n
                    == scales[j].id->Some_0 + 1
        }),
{
    lemma_first_number(scales, scales.len() as int, k);
}

// ── a group ────────────────────────────────────────────────────────────────

/// The variable is that of the dataset: it has its name, its path, its shape and its
/// attributes, and is a coordinate where the dataset is a dimension.
pub open spec fn is_that_of(
    ctx: CtxView,
    v: NcVariableView,
    d: DatasetIndex,
    scales: Seq<DimensionScaleView>,
) -> bool {
    &&& v.name == d.name@
    &&& v.path == d.path@
    &&& v.shape == d.shape@
    &&& v.attributes == visible_of(ctx, d.path@, d.attributes@)
    &&& v.attributes_complete == d.attributes_complete
    &&& v.is_coordinate <==> is_scale(d, scales)
    &&& attached_dimensions(ctx, d, scales, is_scale(d, scales)) matches Ok(Some(names))
        ==> v.dimensions == names
}

/// One of the dimensions has this name and this length.
pub open spec fn has_dimension(dims: Seq<NcDimensionView>, name: Seq<char>, len: u64) -> bool {
    exists|i: int| 0 <= i < dims.len() && (#[trigger] dims[i]).name == name && dims[i].len == len
}

/// Each axis of a variable without names of its own has the name of a dimension of its
/// group that is as long as the axis.
pub open spec fn is_served(
    ctx: CtxView,
    v: NcVariableView,
    d: DatasetIndex,
    scales: Seq<DimensionScaleView>,
    dims: Seq<NcDimensionView>,
) -> bool {
    attached_dimensions(ctx, d, scales, is_scale(d, scales)) matches Ok(None) ==> {
        &&& v.dimensions.len() == d.shape@.len()
        &&& forall|a: int|
            0 <= a < d.shape@.len() ==> has_dimension(
                dims,
                #[trigger] v.dimensions[a],
                d.shape@[a],
            )
    }
}

proof fn lemma_served(
    ctx: CtxView,
    v: NcVariableView,
    d: DatasetIndex,
    scales: Seq<DimensionScaleView>,
    dims: Seq<NcDimensionView>,
    more: Seq<NcDimensionView>,
)
    requires
        is_served(ctx, v, d, scales, dims),
        dims.len() <= more.len(),
        forall|i: int| 0 <= i < dims.len() ==> #[trigger] more[i] == dims[i],
    ensures
        is_served(ctx, v, d, scales, more),
{
    if attached_dimensions(ctx, d, scales, is_scale(d, scales)) matches Ok(None) {
        assert forall|a: int| 0 <= a < d.shape@.len() implies has_dimension(
            more,
            #[trigger] v.dimensions[a],
            d.shape@[a],
        ) by {
            assert(has_dimension(dims, v.dimensions[a], d.shape@[a]));
            let i = choose|i: int|
                0 <= i < dims.len() && (#[trigger] dims[i]).name == v.dimensions[a] && dims[i].len
                    == d.shape@[a];
            assert(more[i] == dims[i]);
        }
    }
}

proof fn lemma_named_one(
    ctx: CtxView,
    d: DatasetIndex,
    scales: Seq<DimensionScaleView>,
    before: Naming,
)
    requires
        all_distinct(scales),
        name_one(ctx, d, scales, before) is Ok,
    ensures
        ({
            let end = name_one(ctx, d, scales, before)->Ok_0;
            &&& end.dims.len() >= before.dims.len()
            &&& forall|i: int| 0 <= i < before.dims.len() ==> #[trigger] end.dims[i]
                == before.dims[i]
            &&& is_hidden(d, scales) ==> end.variables == before.variables
            &&& !is_hidden(d, scales) ==> {
                &&& end.variables.len() == before.variables.len() + 1
                &&& forall|i: int| 0 <= i < before.variables.len() ==> #[trigger] end.variables[i]
                    == before.variables[i]
                &&& is_that_of(ctx, end.variables.last(), d, scales)
                &&& is_served(ctx, end.variables.last(), d, scales, end.dims)
            }
        }),
{
    lemma_roles(d, scales);
    if !is_hidden(d, scales) {
        match attached_dimensions(ctx, d, scales, is_scale(d, scales)) {
            Ok(None) => {
                let state = Assigned { dims: before.dims, next: before.next, used: Seq::empty() };
                let axes = axes_of(d);
                lemma_assign_keeps(state, axes);
                crate::phony::every_axis_ends_on_a_dimension_of_its_length(state, axes);
                let end = assign(state, axes)->Ok_0;
                let v = name_one(ctx, d, scales, before)->Ok_0.variables.last();
                assert forall|a: int| 0 <= a < d.shape@.len() implies has_dimension(
                    end.dims,
                    #[trigger] v.dimensions[a],
                    d.shape@[a],
                ) by {
                    assert(0 <= end.used[a] < end.dims.len());
                    assert(end.dims[end.used[a]].name == v.dimensions[a]);
                }
            },
            _ => {},
        }
    }
}

proof fn lemma_named(
    ctx: CtxView,
    datasets: Seq<DatasetIndex>,
    scales: Seq<DimensionScaleView>,
    n: int,
    start: Naming,
    k: int,
)
    requires
        all_distinct(scales),
        0 <= k < n <= datasets.len(),
        start.variables.len() == 0,
        name_among(ctx, datasets, scales, n, start) is Ok,
    ensures
        ({
            let end = name_among(ctx, datasets, scales, n, start)->Ok_0;
            let at = variables_before(datasets, scales, k) as int;
            &&& end.variables.len() == variables_before(datasets, scales, n)
            &&& at <= variables_before(datasets, scales, k + 1) <= end.variables.len()
            &&& end.dims.len() >= start.dims.len()
            &&& forall|i: int| 0 <= i < start.dims.len() ==> #[trigger] end.dims[i]
                == start.dims[i]
            &&& !is_hidden(datasets[k], scales) ==> is_that_of(
                ctx,
                end.variables[at],
                datasets[k],
                scales,
            ) && is_served(ctx, end.variables[at], datasets[k], scales, end.dims)
        }),
    decreases n,
{
    let before = name_among(ctx, datasets, scales, n - 1, start)->Ok_0;
    let end = name_among(ctx, datasets, scales, n, start)->Ok_0;
    lemma_named_one(ctx, datasets[n - 1], scales, before);
    if n > 1 {
        lemma_named(
            ctx,
            datasets,
            scales,
            n - 1,
            start,
            if k < n - 1 {
                k
            } else {
                0
            },
        );
        assert forall|i: int| 0 <= i < start.dims.len() implies #[trigger] end.dims[i]
            == start.dims[i] by {
            assert(end.dims[i] == before.dims[i]);
        }
        if k < n - 1 && !is_hidden(datasets[k], scales) {
            let at = variables_before(datasets, scales, k) as int;
            assert(end.variables[at] == before.variables[at]);
            lemma_served(
                ctx,
                before.variables[at],
                datasets[k],
                scales,
                before.dims,
                end.dims,
            );
        }
    } else {
        reveal_with_fuel(name_among, 2);
        reveal_with_fuel(variables_before, 2);
    }
}

/// In a file with dimensions, every dataset of a group is a variable, in order, but for
/// those that are dimensions and nothing else; and each of its axes has a dimension as
/// long as itself.
pub proof fn every_dataset_is_a_named_variable_unless_hidden(
    ctx: CtxView,
    g: GroupIndex,
    scales: Seq<DimensionScaleView>,
    next: u64,
    k: int,
)
    requires
        all_distinct(scales),
        named_group(ctx, g, scales, next) is Ok,
        0 <= k < g.datasets@.len(),
        !is_hidden(g.datasets@[k], scales),
    ensures
        ({
            let all = named_group(ctx, g, scales, next)->Ok_0.0;
            let at = variables_before(g.datasets@, scales, k) as int;
            &&& all.variables.len() == variables_before(
                g.datasets@,
                scales,
                g.datasets@.len() as int,
            )
            &&& 0 <= at < all.variables.len()
            &&& is_that_of(ctx, all.variables[at], g.datasets@[k], scales)
            &&& is_served(ctx, all.variables[at], g.datasets@[k], scales, all.dimensions)
        }),
{
    let next2 = named_groups(ctx, g.groups@, scales, next)->Ok_0.1;
    let n = g.datasets@.len() as int;
    let start = Naming {
        variables: Seq::empty(),
        dims: sorted_dimensions(dimensions_among(g.datasets@, scales, n)),
        next: next2,
    };
    lemma_named(ctx, g.datasets@, scales, n, start, k);
}

/// The dimensions that a group has from its scales stand first, in their order.
pub proof fn dimensions_with_a_scale_stand_first(
    ctx: CtxView,
    g: GroupIndex,
    scales: Seq<DimensionScaleView>,
    next: u64,
    i: int,
)
    requires
        all_distinct(scales),
        named_group(ctx, g, scales, next) is Ok,
        g.datasets@.len() > 0,
        ({
            let dims = sorted_dimensions(
                dimensions_among(g.datasets@, scales, g.datasets@.len() as int),
            );
            0 <= i < dims.len()
        }),
    ensures
        ({
            let all = named_group(ctx, g, scales, next)->Ok_0.0;
            let dims = sorted_dimensions(
                dimensions_among(g.datasets@, scales, g.datasets@.len() as int),
            );
            &&& i < all.dimensions.len()
            &&& all.dimensions[i] == dims[i]
            &&& all.name == g.name@
            &&& all.path == g.path@
            &&& all.attributes == visible_of(ctx, g.path@, g.attributes@)
        }),
{
    let next2 = named_groups(ctx, g.groups@, scales, next)->Ok_0.1;
    let n = g.datasets@.len() as int;
    let start = Naming {
        variables: Seq::empty(),
        dims: sorted_dimensions(dimensions_among(g.datasets@, scales, n)),
        next: next2,
    };
    lemma_named(ctx, g.datasets@, scales, n, start, 0);
}

/// The root of a file is named as above where the file has dimensions, and as a plain
/// tree of datasets where it has none.
pub proof fn a_file_without_dimensions_is_a_plain_tree(ctx: CtxView, root: GroupIndex)
    ensures
        ({
            let scales = scales_of(datasets_of(root));
            &&& scales.len() == 0 ==> root_of(ctx, root) == group_of(ctx, root, scales)
            &&& scales.len() > 0 ==> match named_group(
                ctx,
                root,
                scales,
                first_number(scales, scales.len() as int),
            ) {
                Ok((g, _)) => root_of(ctx, root) == std::result::Result::<
                    NcGroupView,
                    ErrorView,
                >::Ok(g),
                Err(e) => root_of(ctx, root) == std::result::Result::<
                    NcGroupView,
                    ErrorView,
                >::Err(e),
            }
        }),
{
}

} // verus!
