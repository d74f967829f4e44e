//! How the objects of a file become variables, dimensions and attributes.

use vstd::prelude::*;

#[allow(unused_imports)]
use crate::attributes::{attribute_value, ints_of};
#[allow(unused_imports)]
use crate::bytes::le_value;
#[allow(unused_imports)]
use crate::classic::{ClassicDimensionView, ClassicVariableView, HeaderView};
#[allow(unused_imports)]
use crate::context::CtxView;
#[allow(unused_imports)]
use crate::cursor::value_of;
#[allow(unused_imports)]
use crate::error::ErrorView;
#[allow(unused_imports)]
use crate::heap::{descriptor_at, descriptor_len, heap_at, object_of, HeapObjectView, VlenDescriptor};
#[allow(unused_imports)]
use crate::index::{dataset_at, datasets_of, datasets_of_all, DatasetIndex, GroupIndex};
use crate::message::attribute::Attribute;
#[allow(unused_imports)]
use crate::message::datatype::ClassView;
#[allow(unused_imports)]
use crate::names::{first_named, lookup, lookup_finds_the_first, Named};
#[allow(unused_imports)]
use crate::netcdf::{
    attached_dimensions, axis_names, begins_with, classic_dimension, classic_root,
    classic_variable, dimension_before, dimensions_among, dimensions_come_in_order, dimensions_of,
    group_at, group_of, groups_of, heap_strings, names_by_id, names_from_ids, names_from_list,
    next_slash, order_id, parts_from, parts_of, phony_names, place_of, place_of_id, reserved,
    scale_of, scales_among, scales_have_distinct_addresses, scales_of, sorted_dimensions, subgroup,
    text_before, text_of, variable_at, variable_of, variables_among, variables_of,
    variables_of_all, visible_among, visible_of, with_scale, without_leading_slashes,
    without_trailing_slashes, DimensionScaleView, NcAttributeView, NcDimensionView, NcGroup,
    NcGroupView, NcVariable, NcVariableView,
};
#[allow(unused_imports)]
use crate::text::decimal;

verus! {

// ── attributes ─────────────────────────────────────────────────────────────

/// Eight names belong to the encoding, and no others.
pub proof fn eight_names_are_reserved(name: Seq<char>)
    ensures
        reserved(name) <==> {
            ||| name == "CLASS"@
            ||| name == "NAME"@
            ||| name == "DIMENSION_LIST"@
            ||| name == "REFERENCE_LIST"@
            ||| name == "_Netcdf4Dimid"@
            ||| name == "_Netcdf4Coordinates"@
            ||| name == "_nc3_strict"@
            ||| name == "_NCProperties"@
        },
{
    let r = crate::netcdf::RESERVED_ATTRIBUTES@;
    assert(r[0]@ == "CLASS"@ && r[1]@ == "NAME"@ && r[2]@ == "DIMENSION_LIST"@ && r[3]@
        == "REFERENCE_LIST"@ && r[4]@ == "_Netcdf4Dimid"@ && r[5]@ == "_Netcdf4Coordinates"@
        && r[6]@ == "_nc3_strict"@ && r[7]@ == "_NCProperties"@);
}

/// How many of the first `n` attributes are not reserved.
pub open spec fn open_among(attributes: Seq<Attribute>, n: int) -> nat
    decreases n,
{
    if n <= 0 {
        0
    } else {
        open_among(attributes, n - 1) + if reserved(attributes[n - 1].name@) {
            0nat
        } else {
            1nat
        }
    }
}

proof fn lemma_visible(
    ctx: CtxView,
    owner: Seq<char>,
    attributes: Seq<Attribute>,
    n: int,
    k: int,
)
    requires
        0 <= k < n <= attributes.len(),
    ensures
        visible_among(ctx, owner, attributes, n).len() == open_among(attributes, n),
        open_among(attributes, k) <= open_among(attributes, k + 1) <= open_among(attributes, n),
        !reserved(attributes[k].name@) ==> visible_among(
            ctx,
            owner,
            attributes,
            n,
        )[open_among(attributes, k) as int] == (NcAttributeView {
            name: attributes[k].name@,
            value: attribute_value(
                attributes[k].datatype@,
                attributes[k].data@,
                heap_strings(ctx, owner, attributes[k]),
            ),
        }),
    decreases n,
{
    if k < n - 1 {
        lemma_visible(ctx, owner, attributes, n - 1, k);
    } else if n > 1 {
        lemma_visible(ctx, owner, attributes, n - 1, 0);
    } else {
        reveal_with_fuel(visible_among, 2);
        reveal_with_fuel(open_among, 2);
    }
}

/// Every attribute that is not reserved is shown, once, in order, with its name and its
/// value.
pub proof fn open_attributes_are_shown_in_order(
    ctx: CtxView,
    owner: Seq<char>,
    attributes: Seq<Attribute>,
    k: int,
)
    requires
        0 <= k < attributes.len(),
        !reserved(attributes[k].name@),
    ensures
        ({
            let all = visible_of(ctx, owner, attributes);
            let at = open_among(attributes, k) as int;
            &&& all.len() == open_among(attributes, attributes.len() as int)
            &&& 0 <= at < all.len()
            &&& all[at].name == attributes[k].name@
            &&& all[at].value == attribute_value(
                attributes[k].datatype@,
                attributes[k].data@,
                heap_strings(ctx, owner, attributes[k]),
            )
        }),
{
    lemma_visible(ctx, owner, attributes, attributes.len() as int, k);
}

// ── dimension scales ───────────────────────────────────────────────────────

/// A dataset whose `CLASS` is `DIMENSION_SCALE` is a dimension: it has the dataset's
/// name and its first extent, and can grow where that extent has no limit.
pub proof fn a_dimension_scale_is_known_by_its_class(d: DatasetIndex)
    ensures
        scale_of(d) is Some <==> text_of(d.attributes@, "CLASS"@) == Some("DIMENSION_SCALE"@),
        scale_of(d) matches Some(s) ==> {
            &&& s.address == d.address
            &&& s.name == d.name@
            &&& d.shape@.len() > 0 ==> s.len == d.shape@[0]
            &&& d.shape@.len() == 0 ==> s.len == 1
            &&& s.is_unlimited <==> (d.max_shape matches Some(m) && m@.len() > 0 && m@[0]
                == 0xffff_ffff_ffff_ffff)
        },
{
}

/// A dimension scale is a variable too, unless its `NAME` says that it is not.
pub proof fn a_scale_is_a_variable_unless_its_name_denies_it(
    d: DatasetIndex,
    name: Seq<char>,
    rest: Seq<char>,
)
    requires
        scale_of(d) is Some,
    ensures
        text_of(d.attributes@, "NAME"@) is None ==> scale_of(d)->Some_0.is_variable,
        text_of(d.attributes@, "NAME"@) == Some(
            "This is a netCDF dimension but not a netCDF variable"@ + rest,
        ) ==> !scale_of(d)->Some_0.is_variable,
        text_of(d.attributes@, "NAME"@) == Some(name) && name.len()
            < "This is a netCDF dimension but not a netCDF variable"@.len() ==> scale_of(
            d,
        )->Some_0.is_variable,
        text_of(d.attributes@, "NAME"@) == Some(name) && !scale_of(d)->Some_0.is_variable ==> {
            let prefix = "This is a netCDF dimension but not a netCDF variable"@;
            name == prefix + name.skip(prefix.len() as int)
        },
{
    let prefix = "This is a netCDF dimension but not a netCDF variable"@;
    assert((prefix + rest).take(prefix.len() as int) =~= prefix);
    if text_of(d.attributes@, "NAME"@) == Some(name) && !scale_of(d)->Some_0.is_variable {
        assert(name =~= name.take(prefix.len() as int) + name.skip(prefix.len() as int));
    }
}

proof fn lemma_place(scales: Seq<DimensionScaleView>, address: u64, i: int)
    requires
        0 <= i,
    ensures
        match place_of(scales, address, i) {
            Some(k) => i <= k < scales.len() && scales[k].address == address,
            None => forall|j: int|
                i <= j < scales.len() ==> (#[trigger] scales[j]).address != address,
        },
    decreases scales.len() - i,
{
    if i < scales.len() && scales[i].address != address {
        lemma_place(scales, address, i + 1);
    }
}

/// The scales of a file are those of its datasets: every dataset that is one gives its
/// scale, unless a later one stands at the same address.
pub proof fn every_scale_is_collected(datasets: Seq<DatasetIndex>, n: int, k: int)
    requires
        0 <= k < n <= datasets.len(),
        scale_of(datasets[k]) is Some,
        forall|j: int|
            k < j < n && scale_of(#[trigger] datasets[j]) is Some ==> datasets[j].address
                != datasets[k].address,
    ensures
        scales_among(datasets, n).contains(scale_of(datasets[k])->Some_0),
    decreases n,
{
    let before = scales_among(datasets, n - 1);
    let now = scales_among(datasets, n);
    let s = scale_of(datasets[k])->Some_0;
    if k == n - 1 {
        lemma_place(before, s.address, 0);
        match place_of(before, s.address, 0) {
            Some(i) => {
                assert(now[i] == s);
            },
            None => {
                assert(now[now.len() - 1] == s);
            },
        }
    } else {
        every_scale_is_collected(datasets, n - 1, k);
        let i = before.index_of(s);
        match scale_of(datasets[n - 1]) {
            Some(t) => {
                lemma_place(before, t.address, 0);
                assert(datasets[n - 1].address != datasets[k].address);
                assert(now[i] == s);
            },
            None => {
                assert(now[i] == s);
            },
        }
    }
}

/// Every scale that is collected is that of some dataset.
pub proof fn no_scale_is_made_up(datasets: Seq<DatasetIndex>, n: int, i: int)
    requires
        0 <= n <= datasets.len(),
        0 <= i < scales_among(datasets, n).len(),
    ensures
        exists|k: int|
            0 <= k < n && scale_of(#[trigger] datasets[k]) == Some(scales_among(datasets, n)[i]),
    decreases n,
{
    if n > 0 {
        let before = scales_among(datasets, n - 1);
        let now = scales_among(datasets, n);
        match scale_of(datasets[n - 1]) {
            Some(s) => {
                lemma_place(before, s.address, 0);
                if now[i] == s {
                    assert(scale_of(datasets[n - 1]) == Some(now[i]));
                } else {
                    assert(now[i] == before[i]);
                    no_scale_is_made_up(datasets, n - 1, i);
                }
            },
            None => {
                no_scale_is_made_up(datasets, n - 1, i);
            },
        }
    }
}

// ── the names of the axes ──────────────────────────────────────────────────

/// Element `a` of a dimension list names the dimension `name`: it points to a heap
/// object that holds the address of the scale with that name.
pub open spec fn names_axis(
    ctx: CtxView,
    data: Seq<u8>,
    scales: Seq<DimensionScaleView>,
    a: int,
    name: Seq<char>,
) -> bool {
    let n = 8 + ctx.sizes().offset;
    value_of(descriptor_at(data.subrange(a * n, a * n + n), 0, ctx.sizes())) matches Ok(d) && (
    heap_at(ctx, d.collection_address) matches Ok(heap) && (object_of(
        heap,
        d.object_index as u16,
        0,
    ) matches Some(object) && object.len() >= ctx.sizes().offset && exists|i: int|
        0 <= i < scales.len() && (#[trigger] scales[i]).name == name && scales[i].address
            == le_value(object.take(ctx.sizes().offset as int)) as u64))
}

proof fn lemma_axes(
    ctx: CtxView,
    data: Seq<u8>,
    scales: Seq<DimensionScaleView>,
    rank: nat,
    out: Seq<Seq<char>>,
    a: int,
)
    requires
        axis_names(ctx, data, scales, rank, out) matches Ok(Some(_)),
        out.len() <= rank,
        0 <= a < rank,
    ensures
        ({
            let all = axis_names(ctx, data, scales, rank, out)->Ok_0->Some_0;
            &&& all.len() == rank
            &&& a < out.len() ==> all[a] == out[a]
            &&& a >= out.len() ==> names_axis(ctx, data, scales, a, all[a])
        }),
    decreases rank - out.len(),
{
    if out.len() < rank {
        let n = out.len() as int;
        let len = descriptor_len(ctx.sizes()) as int;
        let d = value_of(
            descriptor_at(data.subrange(n * len, n * len + len), 0, ctx.sizes()),
        )->Ok_0;
        let heap = heap_at(ctx, d.collection_address)->Ok_0;
        let object = object_of(heap, d.object_index as u16, 0)->Some_0;
        let address = le_value(object.take(ctx.sizes().offset as int)) as u64;
        lemma_place(scales, address, 0);
        let i = place_of(scales, address, 0)->Some_0;
        let more = out.push(scales[i].name);
        lemma_axes(ctx, data, scales, rank, more, a);
        if a == n {
            assert(more[a] == scales[i].name);
            assert(names_axis(ctx, data, scales, a, scales[i].name));
        }
    }
}

/// A dimension list names each axis by the scale that it points to.
pub proof fn a_dimension_list_names_every_axis(
    ctx: CtxView,
    d: DatasetIndex,
    scales: Seq<DimensionScaleView>,
    list: Attribute,
    is_coordinate: bool,
    a: int,
)
    requires
        0 <= a < d.shape@.len(),
        !(is_coordinate && d.shape@.len() == 1),
        lookup(d.attributes@, "DIMENSION_LIST"@) == Some(&list),
        names_from_list(
            ctx,
            list.datatype@,
            list.data@,
            scales,
            d.shape@.len(),
        ) matches Ok(Some(_)),
    ensures
        dimensions_of(ctx, d, scales, is_coordinate) matches Ok(names) && names.len()
            == d.shape@.len() && names_axis(ctx, list.data@, scales, a, names[a]),
{
    lemma_axes(ctx, list.data@, scales, d.shape@.len(), Seq::empty(), a);
}

proof fn lemma_place_by_id(scales: Seq<DimensionScaleView>, id: i64, i: int)
    requires
        0 <= i,
    ensures
        match place_of_id(scales, id, i) {
            Some(k) => i <= k < scales.len() && scales[k].id == Some(id),
            None => forall|j: int| i <= j < scales.len() ==> (#[trigger] scales[j]).id != Some(id),
        },
    decreases scales.len() - i,
{
    if i < scales.len() && scales[i].id != Some(id) {
        lemma_place_by_id(scales, id, i + 1);
    }
}

proof fn lemma_ids(
    scales: Seq<DimensionScaleView>,
    ids: Seq<i64>,
    out: Seq<Seq<char>>,
    a: int,
)
    requires
        names_by_id(scales, ids, out) is Some,
        out.len() <= ids.len(),
        0 <= a < ids.len(),
    ensures
        ({
            let all = names_by_id(scales, ids, out)->Some_0;
            &&& all.len() == ids.len()
            &&& a < out.len() ==> all[a] == out[a]
            &&& a >= out.len() ==> exists|i: int|
                0 <= i < scales.len() && (#[trigger] scales[i]).id == Some(ids[a])
                    && scales[i].name == all[a]
        }),
    decreases ids.len() - out.len(),
{
    if out.len() < ids.len() {
        let n = out.len() as int;
        lemma_place_by_id(scales, ids[n], 0);
        let i = place_of_id(scales, ids[n], 0)->Some_0;
        let more = out.push(scales[i].name);
        lemma_ids(scales, ids, more, a);
        if a == n {
            assert(more[a] == scales[i].name);
        }
    }
}

/// Without a dimension list the axes are named by their numbers, where the dataset
/// lists one for each axis.
pub proof fn numbers_name_the_axes(
    ctx: CtxView,
    d: DatasetIndex,
    scales: Seq<DimensionScaleView>,
    list: Attribute,
    ids: Seq<i64>,
    is_coordinate: bool,
    a: int,
)
    requires
        0 <= a < d.shape@.len(),
        !(is_coordinate && d.shape@.len() == 1),
        lookup(d.attributes@, "DIMENSION_LIST"@) is None,
        lookup(d.attributes@, "_Netcdf4Coordinates"@) == Some(&list),
        ints_of(list.datatype@, list.data@) == std::result::Result::<Seq<i64>, ErrorView>::Ok(ids),
        ids.len() == d.shape@.len(),
        names_by_id(scales, ids, Seq::empty()) is Some,
    ensures
        dimensions_of(ctx, d, scales, is_coordinate) matches Ok(names) && names.len()
            == d.shape@.len() && exists|i: int|
            0 <= i < scales.len() && (#[trigger] scales[i]).id == Some(ids[a]) && scales[i].name
                == names[a],
{
    lemma_ids(scales, ids, Seq::empty(), a);
}

/// A variable that is a dimension has its own name on its axis; one without axes has no
/// names; and where nothing names an axis it is numbered.
pub proof fn an_axis_that_nothing_names_is_numbered(
    ctx: CtxView,
    d: DatasetIndex,
    scales: Seq<DimensionScaleView>,
    a: int,
)
    ensures
        d.shape@.len() == 1 ==> (dimensions_of(ctx, d, scales, true) matches Ok(names)
            && names.len() == 1 && names[0] == d.name@),
        d.shape@.len() == 0 ==> (dimensions_of(ctx, d, scales, false) matches Ok(names)
            && names.len() == 0),
        0 <= a < d.shape@.len() && lookup(d.attributes@, "DIMENSION_LIST"@) is None && lookup(
            d.attributes@,
            "_Netcdf4Coordinates"@,
        ) is None ==> (dimensions_of(ctx, d, scales, false) matches Ok(names) && names.len()
            == d.shape@.len() && names[a] == "phony_dim_"@ + decimal(a as nat)),
{
}

// ── groups ─────────────────────────────────────────────────────────────────

/// No two scales stand at one address.
pub open spec fn all_distinct(scales: Seq<DimensionScaleView>) -> bool {
    forall|i: int, j: int|
        0 <= i < j < scales.len() ==> (#[trigger] scales[i]).address != (
        #[trigger] scales[j]).address
}

/// The dataset is a dimension.
pub open spec fn is_scale(d: DatasetIndex, scales: Seq<DimensionScaleView>) -> bool {
    exists|i: int| 0 <= i < scales.len() && (#[trigger] scales[i]).address == d.address
}

/// The dataset is a dimension and nothing else.
pub open spec fn is_hidden(d: DatasetIndex, scales: Seq<DimensionScaleView>) -> bool {
    exists|i: int|
        0 <= i < scales.len() && (#[trigger] scales[i]).address == d.address
            && !scales[i].is_variable
}

/// How many of the first `n` datasets are variables.
pub open spec fn variables_before(
    datasets: Seq<DatasetIndex>,
    scales: Seq<DimensionScaleView>,
    n: int,
) -> nat
    decreases n,
{
    if n <= 0 {
        0
    } else {
        variables_before(datasets, scales, n - 1) + if is_hidden(datasets[n - 1], scales) {
            0nat
        } else {
            1nat
        }
    }
}

pub proof fn lemma_roles(d: DatasetIndex, scales: Seq<DimensionScaleView>)
    requires
        all_distinct(scales),
    ensures
        is_scale(d, scales) <==> place_of(scales, d.address, 0) is Some,
        is_hidden(d, scales) <==> place_of(scales, d.address, 0) is Some && !scales[place_of(
            scales,
            d.address,
            0,
        )->Some_0].is_variable,
{
    lemma_place(scales, d.address, 0);
    match place_of(scales, d.address, 0) {
        Some(k) => {
            assert(scales[k].address == d.address);
            if is_hidden(d, scales) {
                let i = choose|i: int|
                    0 <= i < scales.len() && (#[trigger] scales[i]).address == d.address
                        && !scales[i].is_variable;
                if i < k {
                    assert(scales[i].address != scales[k].address);
                } else if k < i {
                    assert(scales[k].address != scales[i].address);
                }
            }
        },
        None => {},
    }
}

proof fn lemma_variables(
    ctx: CtxView,
    datasets: Seq<DatasetIndex>,
    scales: Seq<DimensionScaleView>,
    n: int,
    k: int,
)
    requires
        all_distinct(scales),
        0 <= k < n <= datasets.len(),
        variables_among(ctx, datasets, scales, n) is Ok,
    ensures
        ({
            let vs = variables_among(ctx, datasets, scales, n)->Ok_0;
            let at = variables_before(datasets, scales, k) as int;
            &&& vs.len() == variables_before(datasets, scales, n)
            &&& at <= variables_before(datasets, scales, k + 1) <= vs.len()
            &&& !is_hidden(datasets[k], scales) ==> variable_of(
                ctx,
                datasets[k],
                scales,
                is_scale(datasets[k], scales),
            ) == std::result::Result::<NcVariableView, ErrorView>::Ok(vs[at])
        }),
    decreases n,
{
    lemma_roles(datasets[n - 1], scales);
    lemma_roles(datasets[k], scales);
    if k < n - 1 {
        lemma_variables(ctx, datasets, scales, n - 1, k);
    } else if n > 1 {
        lemma_variables(ctx, datasets, scales, n - 1, 0);
    } else {
        reveal_with_fuel(variables_among, 2);
        reveal_with_fuel(variables_before, 2);
    }
}

/// Every dataset of a group is a variable, in order, but for those that are dimensions
/// and nothing else. It keeps its name, its path and its shape, and is a coordinate
/// where it is a dimension too.
pub proof fn every_dataset_is_a_variable_unless_hidden(
    ctx: CtxView,
    g: GroupIndex,
    scales: Seq<DimensionScaleView>,
    k: int,
)
    requires
        all_distinct(scales),
        group_of(ctx, g, scales) is Ok,
        0 <= k < g.datasets@.len(),
        !is_hidden(g.datasets@[k], scales),
    ensures
        ({
            let vs = group_of(ctx, g, scales)->Ok_0.variables;
            let at = variables_before(g.datasets@, scales, k) as int;
            let d = g.datasets@[k];
            &&& vs.len() == variables_before(g.datasets@, scales, g.datasets@.len() as int)
            &&& 0 <= at < vs.len()
            &&& vs[at].name == d.name@
            &&& vs[at].path == d.path@
            &&& vs[at].shape == d.shape@
            &&& vs[at].attributes_complete == d.attributes_complete
            &&& vs[at].attributes == visible_of(ctx, d.path@, d.attributes@)
            &&& vs[at].is_coordinate <==> is_scale(d, scales)
            &&& dimensions_of(ctx, d, scales, is_scale(d, scales)) == std::result::Result::<
                Seq<Seq<char>>,
                ErrorView,
            >::Ok(vs[at].dimensions)
        }),
{
    lemma_variables(ctx, g.datasets@, scales, g.datasets@.len() as int, k);
}

/// A group keeps its name, its path and its attributes, and has one group for each of
/// those in it, in order.
pub proof fn a_group_keeps_its_groups(
    ctx: CtxView,
    g: GroupIndex,
    scales: Seq<DimensionScaleView>,
    k: int,
)
    requires
        group_of(ctx, g, scales) is Ok,
        0 <= k < g.groups@.len(),
    ensures
        ({
            let all = group_of(ctx, g, scales)->Ok_0;
            &&& all.name == g.name@
            &&& all.path == g.path@
            &&& all.attributes == visible_of(ctx, g.path@, g.attributes@)
            &&& all.groups.len() == g.groups@.len()
            &&& group_of(ctx, g.groups@[k], scales) == std::result::Result::<
                NcGroupView,
                ErrorView,
            >::Ok(all.groups[k])
        }),
{
    lemma_groups(ctx, g.groups@, scales, k);
}

proof fn lemma_groups(
    ctx: CtxView,
    gs: Seq<GroupIndex>,
    scales: Seq<DimensionScaleView>,
    k: int,
)
    requires
        groups_of(ctx, gs, scales) is Ok,
        0 <= k < gs.len(),
    ensures
        groups_of(ctx, gs, scales)->Ok_0.len() == gs.len(),
        group_of(ctx, gs[k], scales) == std::result::Result::<NcGroupView, ErrorView>::Ok(
            groups_of(ctx, gs, scales)->Ok_0[k],
        ),
    decreases gs.len(),
{
    let front = gs.drop_last();
    if k < gs.len() - 1 {
        lemma_groups(ctx, front, scales, k);
        assert(front[k] == gs[k]);
    } else if gs.len() > 1 {
        lemma_groups(ctx, front, scales, 0);
    } else {
        assert(front.len() == 0);
        assert(groups_of(ctx, front, scales)->Ok_0.len() == 0);
    }
}

proof fn lemma_dimensions(
    datasets: Seq<DatasetIndex>,
    scales: Seq<DimensionScaleView>,
    n: int,
    k: int,
    i: int,
)
    requires
        all_distinct(scales),
        0 <= k < n <= datasets.len(),
        0 <= i < scales.len(),
        scales[i].address == datasets[k].address,
    ensures
        dimensions_among(datasets, scales, n).contains(
            NcDimensionView {
                name: scales[i].name,
                len: scales[i].len,
                is_unlimited: scales[i].is_unlimited,
                id: scales[i].id,
                has_coordinate_variable: scales[i].is_variable,
                is_phony: false,
            },
        ),
    decreases n,
{
    let want = NcDimensionView {
        name: scales[i].name,
        len: scales[i].len,
        is_unlimited: scales[i].is_unlimited,
        id: scales[i].id,
        has_coordinate_variable: scales[i].is_variable,
        is_phony: false,
    };
    let now = dimensions_among(datasets, scales, n);
    let before = dimensions_among(datasets, scales, n - 1);
    if k == n - 1 {
        lemma_place(scales, datasets[k].address, 0);
        let j = place_of(scales, datasets[k].address, 0)->Some_0;
        if i < j {
            assert(scales[i].address != scales[j].address);
        } else if j < i {
            assert(scales[j].address != scales[i].address);
        }
        assert(now[now.len() - 1] == want);
    } else {
        lemma_dimensions(datasets, scales, n - 1, k, i);
        let p = before.index_of(want);
        assert(now[p] == want);
    }
}

/// Every dataset of a group that is a dimension gives the group a dimension: with the
/// name, the length, the number and the limit of its scale.
pub proof fn every_scale_is_a_dimension(
    ctx: CtxView,
    g: GroupIndex,
    scales: Seq<DimensionScaleView>,
    k: int,
    i: int,
)
    requires
        all_distinct(scales),
        group_of(ctx, g, scales) is Ok,
        0 <= k < g.datasets@.len(),
        0 <= i < scales.len(),
        scales[i].address == g.datasets@[k].address,
    ensures
        group_of(ctx, g, scales)->Ok_0.dimensions.contains(
            NcDimensionView {
                name: scales[i].name,
                len: scales[i].len,
                is_unlimited: scales[i].is_unlimited,
                id: scales[i].id,
                has_coordinate_variable: scales[i].is_variable,
                is_phony: false,
            },
        ),
{
    let n = g.datasets@.len() as int;
    let dims = dimensions_among(g.datasets@, scales, n);
    lemma_dimensions(g.datasets@, scales, n, k, i);
    let want = NcDimensionView {
        name: scales[i].name,
        len: scales[i].len,
        is_unlimited: scales[i].is_unlimited,
        id: scales[i].id,
        has_coordinate_variable: scales[i].is_variable,
        is_phony: false,
    };
    dimensions_come_in_order(dims);
    broadcast use vstd::seq_lib::group_to_multiset_ensures;

    assert(dims.to_multiset().count(want) > 0);
    assert(sorted_dimensions(dims).to_multiset().count(want) > 0);
}

/// The number by which a dimension is ordered: one without a number comes last.
pub open spec fn rank_of(d: NcDimensionView) -> int {
    match d.id {
        Some(id) => id as int,
        None => 0x7fff_ffff_ffff_ffff,
    }
}

/// The first place where two texts differ, or the length of the shorter.
pub open spec fn first_change(a: Seq<char>, b: Seq<char>, i: int) -> int
    decreases a.len() - i,
{
    if i >= a.len() || i >= b.len() || a[i] != b[i] {
        i
    } else {
        first_change(a, b, i + 1)
    }
}

proof fn lemma_first_change(a: Seq<char>, b: Seq<char>, i: int)
    requires
        0 <= i,
        a.len() > 0,
        b.len() > 0,
    ensures
        first_change(a, b, i + 1) == first_change(a.skip(1), b.skip(1), i) + 1,
    decreases a.len() - i,
{
    if i < a.len() - 1 && i < b.len() - 1 {
        assert(a.skip(1)[i] == a[i + 1] && b.skip(1)[i] == b[i + 1]);
        lemma_first_change(a, b, i + 1);
    }
}

/// A text comes before another where it is shorter and otherwise the same, or has the
/// smaller character where they first differ.
pub proof fn texts_are_ordered_by_their_characters(a: Seq<char>, b: Seq<char>)
    ensures
        ({
            let k = first_change(a, b, 0);
            &&& 0 <= k <= a.len()
            &&& k <= b.len()
            &&& text_before(a, b) <==> k < b.len() && (k == a.len() || a[k] < b[k])
        }),
    decreases a.len(),
{
    if a.len() > 0 && b.len() > 0 && a[0] == b[0] {
        texts_are_ordered_by_their_characters(a.skip(1), b.skip(1));
        lemma_first_change(a, b, 0);
    }
}

/// The dimensions of a group come in the order of their numbers, and by name where
/// those are the same.
pub proof fn dimensions_come_by_number_and_name(dims: Seq<NcDimensionView>, i: int, j: int)
    requires
        0 <= i < j < sorted_dimensions(dims).len(),
    ensures
        ({
            let (a, b) = (sorted_dimensions(dims)[i], sorted_dimensions(dims)[j]);
            let k = first_change(b.name, a.name, 0);
            &&& rank_of(a) <= rank_of(b)
            &&& rank_of(a) == rank_of(b) ==> k >= a.name.len() || (k < b.name.len() && b.name[k]
                > a.name[k])
        }),
{
    dimensions_come_in_order(dims);
    let (a, b) = (sorted_dimensions(dims)[i], sorted_dimensions(dims)[j]);
    assert(!dimension_before(b, a));
    texts_are_ordered_by_their_characters(b.name, a.name);
    lemma_change(b.name, a.name, 0);
}

proof fn lemma_change(a: Seq<char>, b: Seq<char>, i: int)
    requires
        0 <= i <= a.len(),
        i <= b.len(),
    ensures
        ({
            let k = first_change(a, b, i);
            k < a.len() && k < b.len() ==> a[k] != b[k]
        }),
    decreases a.len() - i,
{
    if i < a.len() && i < b.len() && a[i] == b[i] {
        lemma_change(a, b, i + 1);
    }
}

// ── paths ──────────────────────────────────────────────────────────────────

/// Names with a slash between any two.
pub open spec fn path_of(names: Seq<Seq<char>>) -> Seq<char>
    decreases names.len(),
{
    if names.len() == 0 {
        Seq::empty()
    } else if names.len() == 1 {
        names[0]
    } else {
        names[0] + (seq!['/'] + path_of(names.skip(1)))
    }
}

/// No name has a slash in it.
pub open spec fn are_plain(names: Seq<Seq<char>>) -> bool {
    forall|i: int, j: int|
        0 <= i < names.len() && 0 <= j < names[i].len() ==> #[trigger] names[i][j] != '/'
}

proof fn lemma_slash(path: Seq<char>, i: int, end: int)
    requires
        0 <= i <= end <= path.len(),
        forall|j: int| i <= j < end ==> #[trigger] path[j] != '/',
        end == path.len() || path[end] == '/',
    ensures
        next_slash(path, i) == end,
    decreases end - i,
{
    if i < end {
        assert(path[i] != '/');
        lemma_slash(path, i + 1, end);
    }
}

proof fn lemma_parts(path: Seq<char>, p: int, names: Seq<Seq<char>>, out: Seq<Seq<char>>)
    requires
        0 <= p <= path.len(),
        names.len() > 0,
        are_plain(names),
        path.subrange(p, path.len() as int) == path_of(names),
    ensures
        parts_from(path, p, out) == out + names,
    decreases names.len(),
{
    let tail = path.subrange(p, path.len() as int);
    let first = names[0];
    let end = p + first.len();
    assert(tail == path_of(names));
    if names.len() == 1 {
        assert(tail =~= first);
    } else {
        assert(tail =~= first + (seq!['/'] + path_of(names.skip(1))));
    }
    assert(tail.len() == path.len() - p);
    assert forall|j: int| p <= j < end implies #[trigger] path[j] != '/' by {
        assert(tail[j - p] == path[j]);
        assert(tail[j - p] == first[j - p]);
        assert(names[0][j - p] != '/');
    }
    assert(path.subrange(p, end) =~= first) by {
        assert forall|j: int| 0 <= j < first.len() implies path.subrange(p, end)[j] == first[j] by {
            assert(tail[j] == path[p + j]);
        }
    }
    if names.len() == 1 {
        lemma_slash(path, p, end);
        assert(out.push(path.subrange(p, path.len() as int)) =~= out + names);
    } else {
        let rest = names.skip(1);
        assert(tail[first.len() as int] == '/');
        assert(path[end] == tail[first.len() as int]);
        lemma_slash(path, p, end);
        assert(path.subrange(end + 1, path.len() as int) =~= path_of(rest)) by {
            assert(tail =~= first + (seq!['/'] + path_of(rest)));
            assert forall|j: int| 0 <= j < path_of(rest).len() implies path.subrange(
                end + 1,
                path.len() as int,
            )[j] == path_of(rest)[j] by {
                assert(tail[first.len() + 1 + j] == path[end + 1 + j]);
            }
        }
        assert(are_plain(rest)) by {
            assert forall|i: int, j: int|
                0 <= i < rest.len() && 0 <= j < rest[i].len() implies #[trigger] rest[i][j]
                != '/' by {
                assert(names[i + 1][j] != '/');
            }
        }
        lemma_parts(path, end + 1, rest, out.push(first));
        assert(out.push(first) + rest =~= out + names);
    }
}

/// A path is taken apart at its slashes.
pub proof fn a_path_is_taken_apart_at_its_slashes(names: Seq<Seq<char>>)
    requires
        names.len() > 0,
        are_plain(names),
    ensures
        parts_of(path_of(names)) == names,
{
    let path = path_of(names);
    assert(path.subrange(0, path.len() as int) =~= path);
    lemma_parts(path, 0, names, Seq::empty());
    assert(Seq::<Seq<char>>::empty() + names =~= names);
}

/// The group that is reached by going down one name after the other.
pub open spec fn goes_down(g: NcGroup, names: Seq<Seq<char>>, end: NcGroup) -> bool
    decreases names.len(),
{
    if names.len() == 0 {
        g == end
    } else {
        lookup(g.groups@, names[0]) matches Some(child) && goes_down(
            *child,
            names.skip(1),
            end,
        )
    }
}

proof fn lemma_goes_down(
    g: NcGroup,
    parts: Seq<Seq<char>>,
    i: int,
    n: int,
    end: NcGroup,
)
    requires
        0 <= i <= n <= parts.len(),
        goes_down(g, parts.subrange(i, n), end),
    ensures
        subgroup(g, parts, i, n) == Some(&end),
    decreases n - i,
{
    if i < n {
        let here = parts.subrange(i, n);
        assert(here[0] == parts[i]);
        assert(here.skip(1) =~= parts.subrange(i + 1, n));
        match lookup(g.groups@, parts[i]) {
            Some(child) => {
                lemma_goes_down(*child, parts, i + 1, n, end);
            },
            None => {},
        }
    }
}

proof fn lemma_leading(path: Seq<char>)
    requires
        path.len() == 0 || path[0] != '/',
    ensures
        without_leading_slashes(path) == path,
        without_leading_slashes(seq!['/'] + path) == path,
{
    let p = seq!['/'] + path;
    assert(p.skip(1) =~= path);
    reveal_with_fuel(without_leading_slashes, 2);
}

/// A variable is found by its path: down the groups by name, then by its own, with or
/// without a slash in front.
pub proof fn a_variable_is_found_by_its_path(
    root: NcGroup,
    groups: Seq<Seq<char>>,
    name: Seq<char>,
    g: NcGroup,
)
    requires
        are_plain(groups.push(name)),
        groups.push(name)[0].len() > 0,
        goes_down(root, groups, g),
    ensures
        variable_at(root, path_of(groups.push(name))) == lookup(g.variables@, name),
        variable_at(root, seq!['/'] + path_of(groups.push(name))) == lookup(g.variables@, name),
{
    let names = groups.push(name);
    let path = path_of(names);
    assert(names[0][0] != '/');
    assert(path[0] == names[0][0]);
    lemma_leading(path);
    a_path_is_taken_apart_at_its_slashes(names);
    assert(names.subrange(0, names.len() - 1) =~= groups);
    lemma_goes_down(root, names, 0, names.len() - 1, g);
}

/// A group is found by its path, and the root by none.
pub proof fn a_group_is_found_by_its_path(root: NcGroup, names: Seq<Seq<char>>, g: NcGroup)
    requires
        are_plain(names),
        names.len() > 0,
        names[0].len() > 0,
        names.last().len() > 0,
        goes_down(root, names, g),
    ensures
        group_at(root, path_of(names)) == Some(&g),
        group_at(root, seq!['/'] + path_of(names)) == Some(&g),
        group_at(root, Seq::empty()) == Some(&root),
        group_at(root, seq!['/']) == Some(&root),
{
    let path = path_of(names);
    assert(names[0][0] != '/');
    assert(path[0] == names[0][0]);
    lemma_leading(path);
    lemma_last(names);
    a_path_is_taken_apart_at_its_slashes(names);
    assert(names.subrange(0, names.len() as int) =~= names);
    lemma_goes_down(root, names, 0, names.len() as int, g);
    let none = Seq::<char>::empty();
    lemma_leading(none);
    assert(seq!['/'] + none =~= seq!['/']);
}

proof fn lemma_last(names: Seq<Seq<char>>)
    requires
        names.len() > 0,
        are_plain(names),
        names.last().len() > 0,
    ensures
        path_of(names).len() > 0,
        path_of(names).last() == names.last().last(),
        path_of(names).last() != '/',
    decreases names.len(),
{
    if names.len() > 1 {
        let rest = names.skip(1);
        assert(rest.last() == names.last());
        assert(are_plain(rest)) by {
            assert forall|i: int, j: int|
                0 <= i < rest.len() && 0 <= j < rest[i].len() implies #[trigger] rest[i][j]
                != '/' by {
                assert(names[i + 1][j] != '/');
            }
        }
        lemma_last(rest);
        assert(path_of(names).last() == path_of(rest).last());
    } else {
        assert(names[0][names[0].len() - 1] != '/');
    }
}

// ── everything below a group ───────────────────────────────────────────────

/// The path, as numbers of groups, stays within the tree.
pub open spec fn is_way(g: GroupIndex, way: Seq<int>) -> bool
    decreases way.len(),
{
    way.len() == 0 || (0 <= way[0] < g.groups@.len() && is_way(g.groups@[way[0]], way.skip(1)))
}

/// The group at the end of the path.
pub open spec fn end_of(g: GroupIndex, way: Seq<int>) -> GroupIndex
    decreases way.len(),
{
    if way.len() == 0 {
        g
    } else {
        end_of(g.groups@[way[0]], way.skip(1))
    }
}

proof fn lemma_among_all(gs: Seq<GroupIndex>, i: int, d: DatasetIndex)
    requires
        0 <= i < gs.len(),
        datasets_of(gs[i]).contains(d),
    ensures
        datasets_of_all(gs).contains(d),
    decreases gs.len(),
{
    let front = datasets_of_all(gs.drop_last());
    let all = datasets_of_all(gs);
    if i == gs.len() - 1 {
        let k = datasets_of(gs[i]).index_of(d);
        assert(all[front.len() + k] == d);
    } else {
        lemma_among_all(gs.drop_last(), i, d);
        let k = front.index_of(d);
        assert(all[k] == d);
    }
}

/// Every dataset of every group below a group is among its datasets.
pub proof fn every_dataset_below_is_listed(g: GroupIndex, way: Seq<int>, k: int)
    requires
        is_way(g, way),
        0 <= k < end_of(g, way).datasets@.len(),
    ensures
        datasets_of(g).contains(end_of(g, way).datasets@[k]),
    decreases way.len(),
{
    let d = end_of(g, way).datasets@[k];
    let own = g.datasets@;
    let all = datasets_of(g);
    if way.len() == 0 {
        assert(all[k] == d);
    } else {
        every_dataset_below_is_listed(g.groups@[way[0]], way.skip(1), k);
        lemma_among_all(g.groups@, way[0], d);
        let j = datasets_of_all(g.groups@).index_of(d);
        assert(all[own.len() + j] == d);
    }
}

/// A dataset is found by its path, the first where there are several.
pub proof fn a_dataset_is_found_by_its_path(
    items: Seq<DatasetIndex>,
    path: Seq<char>,
    i: int,
    k: int,
)
    requires
        0 <= k <= i < items.len(),
        items[i].path@ == path,
        forall|j: int| k <= j < i ==> (#[trigger] items[j]).path@ != path,
    ensures
        dataset_at(items, path, k) == Some(&items[i]),
    decreases i - k,
{
    if k < i {
        assert(items[k].path@ != path);
        a_dataset_is_found_by_its_path(items, path, i, k + 1);
    }
}

/// A path that no dataset has finds none.
pub proof fn an_unknown_path_finds_no_dataset(items: Seq<DatasetIndex>, path: Seq<char>, k: int)
    requires
        0 <= k,
        forall|j: int| k <= j < items.len() ==> (#[trigger] items[j]).path@ != path,
    ensures
        dataset_at(items, path, k) is None,
    decreases items.len() - k,
{
    if k < items.len() {
        assert(items[k].path@ != path);
        an_unknown_path_finds_no_dataset(items, path, k + 1);
    }
}

proof fn lemma_variable_among_all(gs: Seq<NcGroup>, i: int, v: NcVariable)
    requires
        0 <= i < gs.len(),
        variables_of(gs[i]).contains(v),
    ensures
        variables_of_all(gs).contains(v),
    decreases gs.len(),
{
    let front = variables_of_all(gs.drop_last());
    let all = variables_of_all(gs);
    if i == gs.len() - 1 {
        let k = variables_of(gs[i]).index_of(v);
        assert(all[front.len() + k] == v);
    } else {
        lemma_variable_among_all(gs.drop_last(), i, v);
        let k = front.index_of(v);
        assert(all[k] == v);
    }
}

/// The variables of a group and of every group in it are among its variables.
pub proof fn every_variable_below_is_listed(g: NcGroup, i: int, k: int)
    ensures
        0 <= k < g.variables@.len() ==> variables_of(g).contains(g.variables@[k]),
        0 <= i < g.groups@.len() && 0 <= k < variables_of(g.groups@[i]).len() ==> variables_of(
            g,
        ).contains(variables_of(g.groups@[i])[k]),
{
    let all = variables_of(g);
    let own = g.variables@;
    if 0 <= k < own.len() {
        assert(all[k] == own[k]);
    }
    if 0 <= i < g.groups@.len() && 0 <= k < variables_of(g.groups@[i]).len() {
        let v = variables_of(g.groups@[i])[k];
        lemma_variable_among_all(g.groups@, i, v);
        let j = variables_of_all(g.groups@).index_of(v);
        assert(all[own.len() + j] == v);
    }
}

// ── classic files ──────────────────────────────────────────────────────────

/// A classic file has one group. Its dimensions and variables are those of the header,
/// in order; a dimension has a coordinate variable where a variable has its name, and a
/// variable is one where it has one axis of its own name.
pub proof fn a_classic_file_is_one_group(h: HeaderView, i: int, k: int)
    requires
        0 <= i < h.dimensions.len(),
        0 <= k < h.variables.len(),
    ensures
        ({
            let g = classic_root(h);
            let (d, v) = (h.dimensions[i], h.variables[k]);
            &&& g.groups.len() == 0
            &&& g.path == "/"@
            &&& g.dimensions.len() == h.dimensions.len()
            &&& g.dimensions[i].name == d.name
            &&& g.dimensions[i].len == d.len
            &&& g.dimensions[i].is_unlimited == d.is_unlimited
            &&& g.dimensions[i].id is None
            &&& !g.dimensions[i].is_phony
            &&& v.name == d.name ==> g.dimensions[i].has_coordinate_variable
            &&& (forall|j: int| 0 <= j < h.variables.len() ==> (#[trigger] h.variables[j]).name
                != d.name) ==> !g.dimensions[i].has_coordinate_variable
            &&& g.variables.len() == h.variables.len()
            &&& g.variables[k].name == v.name
            &&& g.variables[k].path == "/"@ + v.name
            &&& g.variables[k].dimensions == v.dimensions
            &&& g.variables[k].shape == v.shape
            &&& g.variables[k].attributes_complete
            &&& g.variables[k].is_coordinate <==> v.dimensions == seq![v.name]
        }),
{
    let v = h.variables[k];
    if v.dimensions.len() == 1 && v.dimensions[0] == v.name {
        assert(v.dimensions =~= seq![v.name]);
    }
}

} // verus!
