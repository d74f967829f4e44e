//! The netCDF-4 layer.
//!
//! netCDF-4 is a set of conventions over HDF5. This module applies them. It
//! turns a tree of HDF5 datasets into dimensions, variables and attributes.
//!
//! # The conventions that matter
//!
//! * A **dimension** is an HDF5 dataset with `CLASS = "DIMENSION_SCALE"`.
//! * Its `NAME` attribute separates two cases. A name that starts with
//!   `"This is a netCDF dimension but not a netCDF variable"` marks a dimension
//!   only. netCDF does not report it as a variable. Any other name marks a
//!   **coordinate variable**, which is a dimension and a variable at once.
//! * A variable's `DIMENSION_LIST` attribute holds one object reference for
//!   each axis. Each reference names the object header of that axis' dimension
//!   scale. The references live in the global heap.
//! * `_Netcdf4Dimid` numbers a dimension. `_Netcdf4Coordinates` lists a
//!   variable's dimension ids. It settles the order when `DIMENSION_LIST` alone
//!   is ambiguous.
//!
//! A reader that breaks the first two rules reports dimensions as variables.
//! This module exists to prevent that.

use std::sync::Arc;

use vstd::prelude::*;
use vstd::slice::{slice_subrange, slice_to_vec};
use vstd::string::*;

use crate::attributes::{decode_ints, decode_text, decode_value, AttributeValue};
#[allow(unused_imports)]
use crate::attributes::{attribute_value, ints_of, texts_of, AttributeValueView};
use crate::bytes::from_le;
#[allow(unused_imports)]
use crate::bytes::le_value;
use crate::classic::{ClassicAttribute, ClassicFile, ClassicVariable};
#[allow(unused_imports)]
use crate::classic::{
    classic_of, datatype_of, ClassicAttributeView, ClassicDimensionView, ClassicVariableView,
    HeaderView,
};
use crate::container::{detect_container, Container};
#[allow(unused_imports)]
use crate::container::container_of;
use crate::context::Ctx;
#[allow(unused_imports)]
use crate::context::CtxView;
use crate::cursor::Sizes;
#[allow(unused_imports)]
use crate::cursor::value_of;
use crate::error::Result;
#[allow(unused_imports)]
use crate::error::ErrorView;
use crate::heap::{resolve_vlen_strings_of, HeapCache, VlenDescriptor};
#[allow(unused_imports)]
use crate::heap::{descriptor_at, descriptor_len, follows, heap_at, object_of, strings_from};
use crate::index::{DatasetIndex, GroupIndex, Hdf5File};
#[allow(unused_imports)]
use crate::index::{dataset_at, datasets_of, refers_to};
use crate::message::attribute::Attribute;
use crate::message::datatype::{DatatypeClass, VlenKind};
#[allow(unused_imports)]
use crate::message::datatype::{ClassView, DatatypeView};
use crate::names::{find_named, Named};
#[allow(unused_imports)]
use crate::names::lookup;
use crate::phony::build_root;
#[allow(unused_imports)]
use crate::phony::root_agrees;
use crate::source::ByteSource;
#[allow(unused_imports)]
use crate::source::agrees;
use crate::text::{joined, numbered};
#[allow(unused_imports)]
use crate::text::decimal;
#[allow(unused_imports)]
use crate::views::{option_view, views};

verus! {

broadcast use crate::views::group_views;

/// Prefix of the `NAME` attribute on a dimension that has no coordinate
/// variable. netcdf-c writes the dimension length after it.
pub const PHANTOM_DIMENSION_PREFIX: &'static str =
    "This is a netCDF dimension but not a netCDF variable";

/// Attributes that belong to the netCDF-4 encoding rather than to the data.
///
/// netCDF hides these, so this reader hides them too. Surfacing them would make
/// every variable look like it has bookkeeping attributes it does not have.
pub const RESERVED_ATTRIBUTES: [&'static str; 8] = [
    "CLASS",
    "NAME",
    "DIMENSION_LIST",
    "REFERENCE_LIST",
    "_Netcdf4Dimid",
    "_Netcdf4Coordinates",
    "_nc3_strict",
    "_NCProperties",
];

/// Whether an attribute belongs to the netCDF-4 encoding.
pub open spec fn reserved(name: Seq<char>) -> bool {
    exists|i: int| 0 <= i < 8 && #[trigger] RESERVED_ATTRIBUTES@[i]@ == name
}

/// Whether an attribute belongs to the netCDF-4 encoding.
pub fn is_reserved(name: &String) -> (r: bool)
    ensures
        r == reserved(name@),
{
    let mut i: usize = 0;
    while i < 8
        invariant
            i <= 8,
            forall|j: int| 0 <= j < i ==> #[trigger] RESERVED_ATTRIBUTES@[j]@ != name@,
        decreases 8 - i,
    {
        if String::from_str(RESERVED_ATTRIBUTES[i]) == *name {
            return true;
        }
        i = i + 1;
    }
    false
}

// ── what a file holds ──────────────────────────────────────────────────────

/// One netCDF attribute.
#[derive(Debug, Clone)]
pub struct NcAttribute {
    /// Attribute name.
    pub name: String,
    /// Decoded value.
    pub value: AttributeValue,
}

/// What an [`NcAttribute`] says.
#[verifier::ext_equal]
pub struct NcAttributeView {
    pub name: Seq<char>,
    pub value: AttributeValueView,
}

impl View for NcAttribute {
    type V = NcAttributeView;

    open spec fn view(&self) -> NcAttributeView {
        NcAttributeView { name: self.name@, value: self.value@ }
    }
}

impl Named for NcAttribute {
    open spec fn called(&self) -> Seq<char> {
        self.name@
    }

    fn name(&self) -> (r: &String) {
        &self.name
    }
}

/// One netCDF dimension.
#[derive(Debug, Clone)]
pub struct NcDimension {
    /// Dimension name.
    pub name: String,
    /// Current length.
    pub len: u64,
    /// Whether the dimension can grow.
    pub is_unlimited: bool,
    /// The netCDF dimension id, from `_Netcdf4Dimid`.
    pub id: Option<i64>,
    /// Whether a variable of the same name shares this dimension.
    pub has_coordinate_variable: bool,
    /// Whether this reader invented the dimension, for an axis that names none.
    pub is_phony: bool,
}

/// What an [`NcDimension`] says.
#[verifier::ext_equal]
pub struct NcDimensionView {
    pub name: Seq<char>,
    pub len: u64,
    pub is_unlimited: bool,
    pub id: Option<i64>,
    pub has_coordinate_variable: bool,
    pub is_phony: bool,
}

impl View for NcDimension {
    type V = NcDimensionView;

    open spec fn view(&self) -> NcDimensionView {
        NcDimensionView {
            name: self.name@,
            len: self.len,
            is_unlimited: self.is_unlimited,
            id: self.id,
            has_coordinate_variable: self.has_coordinate_variable,
            is_phony: self.is_phony,
        }
    }
}

impl Named for NcDimension {
    open spec fn called(&self) -> Seq<char> {
        self.name@
    }

    fn name(&self) -> (r: &String) {
        &self.name
    }
}

/// One netCDF variable.
#[derive(Debug, Clone)]
pub struct NcVariable {
    /// Variable name.
    pub name: String,
    /// Full path from the root group.
    pub path: String,
    /// Names of the dimensions, in order.
    ///
    /// Empty for a scalar. An axis whose dimension could not be resolved gets a
    /// generated `phony_dim_N` name, matching what other readers do, rather
    /// than a silently wrong one.
    pub dimensions: Vec<String>,
    /// Shape in elements.
    pub shape: Vec<u64>,
    /// The variable's attributes, with netCDF bookkeeping removed.
    pub attributes: Vec<NcAttribute>,
    /// Whether every attribute was recovered. See
    /// [`DatasetIndex::attributes_complete`].
    pub attributes_complete: bool,
    /// Whether this variable is also a dimension.
    pub is_coordinate: bool,
}

/// What an [`NcVariable`] says.
#[verifier::ext_equal]
pub struct NcVariableView {
    pub name: Seq<char>,
    pub path: Seq<char>,
    pub dimensions: Seq<Seq<char>>,
    pub shape: Seq<u64>,
    pub attributes: Seq<NcAttributeView>,
    pub attributes_complete: bool,
    pub is_coordinate: bool,
}

impl View for NcVariable {
    type V = NcVariableView;

    open spec fn view(&self) -> NcVariableView {
        NcVariableView {
            name: self.name@,
            path: self.path@,
            dimensions: views(self.dimensions@),
            shape: self.shape@,
            attributes: views(self.attributes@),
            attributes_complete: self.attributes_complete,
            is_coordinate: self.is_coordinate,
        }
    }
}

impl Named for NcVariable {
    open spec fn called(&self) -> Seq<char> {
        self.name@
    }

    fn name(&self) -> (r: &String) {
        &self.name
    }
}

impl NcVariable {
    /// An attribute by name.
    pub fn attribute(&self, name: &str) -> (r: Option<&NcAttribute>)
        ensures
            r == lookup(self.attributes@, name@),
    {
        find_named(&self.attributes, name)
    }
}

/// One netCDF group.
#[derive(Debug)]
pub struct NcGroup {
    /// Group name. Empty for the root group.
    pub name: String,
    /// Full path. `/` for the root group.
    pub path: String,
    /// Dimensions defined in this group.
    pub dimensions: Vec<NcDimension>,
    /// Variables in this group.
    pub variables: Vec<NcVariable>,
    /// Group attributes. For the root group these are the global attributes.
    pub attributes: Vec<NcAttribute>,
    /// Child groups.
    pub groups: Vec<NcGroup>,
}

/// What an [`NcGroup`] says.
#[verifier::ext_equal]
pub struct NcGroupView {
    pub name: Seq<char>,
    pub path: Seq<char>,
    pub dimensions: Seq<NcDimensionView>,
    pub variables: Seq<NcVariableView>,
    pub attributes: Seq<NcAttributeView>,
    pub groups: Seq<NcGroupView>,
}

/// The view of a group.
pub open spec fn group_view(g: NcGroup) -> NcGroupView
    decreases g,
{
    NcGroupView {
        name: g.name@,
        path: g.path@,
        dimensions: views(g.dimensions@),
        variables: views(g.variables@),
        attributes: views(g.attributes@),
        groups: Seq::new(
            g.groups@.len(),
            |i: int|
                if 0 <= i < g.groups@.len() {
                    group_view(g.groups@[i])
                } else {
                    arbitrary()
                },
        ),
    }
}

impl View for NcGroup {
    type V = NcGroupView;

    open spec fn view(&self) -> NcGroupView {
        group_view(*self)
    }
}

impl Named for NcGroup {
    open spec fn called(&self) -> Seq<char> {
        self.name@
    }

    fn name(&self) -> (r: &String) {
        &self.name
    }
}

impl Default for NcGroup {
    fn default() -> (r: Self)
        ensures
            r.name@.len() == 0,
            r.path@.len() == 0,
            r.dimensions@.len() == 0,
            r.variables@.len() == 0,
            r.attributes@.len() == 0,
            r.groups@.len() == 0,
    {
        NcGroup {
            name: String::new(),
            path: String::new(),
            dimensions: Vec::new(),
            variables: Vec::new(),
            attributes: Vec::new(),
            groups: Vec::new(),
        }
    }
}

/// Every variable at or below a group, depth first.
pub open spec fn variables_of(g: NcGroup) -> Seq<NcVariable>
    decreases g,
{
    g.variables@ + variables_of_all(g.groups@)
}

/// Every variable at or below any of the groups, depth first.
pub open spec fn variables_of_all(gs: Seq<NcGroup>) -> Seq<NcVariable>
    decreases gs,
{
    if gs.len() == 0 {
        Seq::empty()
    } else {
        variables_of_all(gs.drop_last()) + variables_of(gs.last())
    }
}

impl NcGroup {
    /// A variable by name.
    pub fn variable(&self, name: &str) -> (r: Option<&NcVariable>)
        ensures
            r == lookup(self.variables@, name@),
    {
        find_named(&self.variables, name)
    }

    /// A dimension by name.
    pub fn dimension(&self, name: &str) -> (r: Option<&NcDimension>)
        ensures
            r == lookup(self.dimensions@, name@),
    {
        find_named(&self.dimensions, name)
    }

    /// An attribute by name.
    pub fn attribute(&self, name: &str) -> (r: Option<&NcAttribute>)
        ensures
            r == lookup(self.attributes@, name@),
    {
        find_named(&self.attributes, name)
    }

    /// Every variable at or below this group, depth first.
    pub fn variables_recursive(&self) -> (r: Vec<&NcVariable>)
        ensures
            refers_to(r@, variables_of(*self)),
        decreases *self,
    {
        let mut out: Vec<&NcVariable> = Vec::new();
        let mut i: usize = 0;
        while i < self.variables.len()
            invariant
                i <= self.variables@.len(),
                refers_to(out@, self.variables@.take(i as int)),
            decreases self.variables@.len() - i,
        {
            out.push(&self.variables[i]);
            i = i + 1;
        }
        assert(self.variables@.take(i as int) =~= self.variables@);
        assert(self.groups@.take(0) =~= Seq::<NcGroup>::empty());
        let mut i: usize = 0;
        while i < self.groups.len()
            invariant
                i <= self.groups@.len(),
                refers_to(out@, self.variables@ + variables_of_all(self.groups@.take(i as int))),
            decreases self.groups@.len() - i,
        {
            proof {
                assert(decreases_to!(*self => self.groups));
                assert(decreases_to!(self.groups => self.groups@));
                assert(decreases_to!(self.groups@ => self.groups@[i as int]));
                assert(self.groups@.take(i + 1).drop_last() =~= self.groups@.take(i as int));
            }
            let mut below = self.groups[i].variables_recursive();
            out.append(&mut below);
            i = i + 1;
        }
        assert(self.groups@.take(i as int) =~= self.groups@);
        out
    }
}

// ── paths ──────────────────────────────────────────────────────────────────

/// The first slash from `i` on, or the end.
pub open spec fn next_slash(path: Seq<char>, i: int) -> int
    decreases path.len() - i,
{
    if i >= path.len() || path[i] == '/' {
        i
    } else {
        next_slash(path, i + 1)
    }
}

/// The parts of a path between its slashes, from `i` on, after those in `out`.
pub open spec fn parts_from(path: Seq<char>, i: int, out: Seq<Seq<char>>) -> Seq<Seq<char>>
    decreases path.len() - i,
{
    let end = next_slash(path, i);
    if i < 0 || end < i || end >= path.len() {
        out.push(path.subrange(i, path.len() as int))
    } else {
        parts_from(path, end + 1, out.push(path.subrange(i, end)))
    }
}

/// The parts of a path between its slashes.
pub open spec fn parts_of(path: Seq<char>) -> Seq<Seq<char>> {
    parts_from(path, 0, Seq::empty())
}

/// A path without the slashes at its front.
pub open spec fn without_leading_slashes(path: Seq<char>) -> Seq<char>
    decreases path.len(),
{
    if path.len() > 0 && path[0] == '/' {
        without_leading_slashes(path.skip(1))
    } else {
        path
    }
}

/// A path without the slashes at its end.
pub open spec fn without_trailing_slashes(path: Seq<char>) -> Seq<char>
    decreases path.len(),
{
    if path.len() > 0 && path.last() == '/' {
        without_trailing_slashes(path.drop_last())
    } else {
        path
    }
}

/// The group that the first `n` parts of a path lead to.
pub open spec fn subgroup<'a>(g: NcGroup, parts: Seq<Seq<char>>, i: int, n: int) -> Option<
    &'a NcGroup,
>
    decreases n - i,
{
    if i >= n {
        Some(&g)
    } else {
        match lookup(g.groups@, parts[i]) {
            Some(child) => subgroup(*child, parts, i + 1, n),
            None => None,
        }
    }
}

/// Split a path at its slashes.
fn split_path(path: &str) -> (r: Vec<String>)
    ensures
        views(r@) == parts_of(path@),
        r@.len() > 0,
{
    let n: usize = path.unicode_len();
    let mut out: Vec<String> = Vec::new();
    let mut start: usize = 0;
    let mut i: usize = 0;
    while i < n
        invariant
            n == path@.len(),
            start <= i <= n,
            parts_of(path@) == parts_from(path@, start as int, views(out@)),
            next_slash(path@, start as int) == next_slash(path@, i as int),
        decreases n - i,
    {
        if path.get_char(i) == '/' {
            out.push(String::from_str(path.substring_char(start, i)));
            start = i + 1;
        }
        i = i + 1;
    }
    out.push(String::from_str(path.substring_char(start, n)));
    out
}

/// Drop the slashes at the front of a path.
fn trim_start(path: &str) -> (r: &str)
    ensures
        r@ == without_leading_slashes(path@),
{
    let n: usize = path.unicode_len();
    let mut i: usize = 0;
    assert(path@.skip(0) =~= path@);
    while i < n && path.get_char(i) == '/'
        invariant
            n == path@.len(),
            i <= n,
            without_leading_slashes(path@) == without_leading_slashes(path@.skip(i as int)),
        decreases n - i,
    {
        assert(path@.skip(i as int).skip(1) =~= path@.skip(i + 1));
        i = i + 1;
    }
    assert(path@.subrange(i as int, n as int) =~= path@.skip(i as int));
    path.substring_char(i, n)
}

/// Drop the slashes at the end of a path.
fn trim_end(path: &str) -> (r: &str)
    ensures
        r@ == without_trailing_slashes(path@),
{
    let mut n: usize = path.unicode_len();
    assert(path@.take(n as int) =~= path@);
    while n > 0 && path.get_char(n - 1) == '/'
        invariant
            n <= path@.len(),
            without_trailing_slashes(path@) == without_trailing_slashes(path@.take(n as int)),
        decreases n,
    {
        n = n - 1;
        assert(path@.take(n + 1).drop_last() =~= path@.take(n as int));
    }
    assert(path@.subrange(0, n as int) =~= path@.take(n as int));
    path.substring_char(0, n)
}

/// Walk down the first `n` parts of a path.
fn descend<'a>(root: &'a NcGroup, parts: &Vec<String>, n: usize) -> (r: Option<&'a NcGroup>)
    requires
        n <= parts@.len(),
    ensures
        r == subgroup(*root, views(parts@), 0, n as int),
{
    let mut group: &'a NcGroup = root;
    let mut i: usize = 0;
    while i < n
        invariant
            i <= n <= parts@.len(),
            subgroup(*root, views(parts@), 0, n as int) == subgroup(
                *group,
                views(parts@),
                i as int,
                n as int,
            ),
        decreases n - i,
    {
        match find_named(&group.groups, parts[i].as_str()) {
            Some(child) => {
                group = child;
            },
            None => {
                return None;
            },
        }
        i = i + 1;
    }
    Some(group)
}

/// The variable at a path below a group.
pub open spec fn variable_at<'a>(root: NcGroup, path: Seq<char>) -> Option<&'a NcVariable> {
    let parts = parts_of(without_leading_slashes(path));
    match subgroup(root, parts, 0, parts.len() - 1) {
        Some(g) => lookup(g.variables@, parts.last()),
        None => None,
    }
}

/// The group at a path below a group.
pub open spec fn group_at<'a>(root: NcGroup, path: Seq<char>) -> Option<&'a NcGroup> {
    let trimmed = without_trailing_slashes(without_leading_slashes(path));
    if trimmed.len() == 0 {
        Some(&root)
    } else {
        let parts = parts_of(trimmed);
        subgroup(root, parts, 0, parts.len() as int)
    }
}

impl NcGroup {
    /// A variable by path, counted from this group.
    pub fn variable_info(&self, path: &str) -> (r: Option<&NcVariable>)
        ensures
            r == variable_at(*self, path@),
    {
        let parts = split_path(trim_start(path));
        let last: usize = parts.len() - 1;
        let group = descend(self, &parts, last)?;
        group.variable(parts[last].as_str())
    }

    /// A group by path, such as `/` or `/processing`, counted from this group.
    pub fn group(&self, path: &str) -> (r: Option<&NcGroup>)
        ensures
            r == group_at(*self, path@),
    {
        let trimmed = trim_end(trim_start(path));
        if trimmed.unicode_len() == 0 {
            return Some(self);
        }
        let parts = split_path(trimmed);
        descend(self, &parts, parts.len())
    }
}

// ── dimension scales ───────────────────────────────────────────────────────

/// What the scan learns about one dimension scale.
#[derive(Debug, Clone)]
pub struct DimensionScale {
    /// Address of the dataset's object header, by which `DIMENSION_LIST` names
    /// the scale.
    pub address: u64,
    /// Dimension name.
    pub name: String,
    /// Current length.
    pub len: u64,
    /// Whether the dimension can grow.
    pub is_unlimited: bool,
    /// The netCDF dimension id, when the file stores one.
    pub id: Option<i64>,
    /// False when `NAME` marks it a dimension with no coordinate variable.
    pub is_variable: bool,
}

/// What a [`DimensionScale`] says.
#[verifier::ext_equal]
pub struct DimensionScaleView {
    pub address: u64,
    pub name: Seq<char>,
    pub len: u64,
    pub is_unlimited: bool,
    pub id: Option<i64>,
    pub is_variable: bool,
}

impl View for DimensionScale {
    type V = DimensionScaleView;

    open spec fn view(&self) -> DimensionScaleView {
        DimensionScaleView {
            address: self.address,
            name: self.name@,
            len: self.len,
            is_unlimited: self.is_unlimited,
            id: self.id,
            is_variable: self.is_variable,
        }
    }
}

/// The first string of a text attribute.
pub open spec fn text_of(attributes: Seq<Attribute>, name: Seq<char>) -> Option<Seq<char>> {
    match lookup(attributes, name) {
        Some(a) => match texts_of(a.datatype@, a.data@) {
            Some(t) => if t.len() == 0 {
                None
            } else {
                Some(t[0])
            },
            None => None,
        },
        None => None,
    }
}

/// The first number of an integer attribute.
pub open spec fn int_of(attributes: Seq<Attribute>, name: Seq<char>) -> Option<i64> {
    match lookup(attributes, name) {
        Some(a) => match ints_of(a.datatype@, a.data@) {
            Ok(v) => if v.len() == 0 {
                None
            } else {
                Some(v[0])
            },
            Err(_) => None,
        },
        None => None,
    }
}

/// `text` begins with `prefix`.
pub open spec fn begins_with(text: Seq<char>, prefix: Seq<char>) -> bool {
    prefix.len() <= text.len() && text.take(prefix.len() as int) == prefix
}

/// What a dataset says of itself as a dimension, if it is one.
///
/// The dimension's name is the dataset's own name. The `NAME` attribute says
/// whether a coordinate variable shares it.
pub open spec fn scale_of(d: DatasetIndex) -> Option<DimensionScaleView> {
    if text_of(d.attributes@, "CLASS"@) != Some("DIMENSION_SCALE"@) {
        None
    } else {
        Some(
            DimensionScaleView {
                address: d.address,
                name: d.name@,
                len: if d.shape@.len() == 0 {
                    1
                } else {
                    d.shape@[0]
                },
                is_unlimited: match d.max_shape {
                    Some(m) => m@.len() > 0 && m@[0] == u64::MAX,
                    None => false,
                },
                id: int_of(d.attributes@, "_Netcdf4Dimid"@),
                is_variable: match text_of(d.attributes@, "NAME"@) {
                    Some(n) => !begins_with(n, PHANTOM_DIMENSION_PREFIX@),
                    None => true,
                },
            },
        )
    }
}

/// The place from `i` on of the scale with that address.
pub open spec fn place_of(scales: Seq<DimensionScaleView>, address: u64, i: int) -> Option<int>
    decreases scales.len() - i,
{
    if i >= scales.len() {
        None
    } else if scales[i].address == address {
        Some(i)
    } else {
        place_of(scales, address, i + 1)
    }
}

/// The scales with one more, which takes the place of one with its address.
pub open spec fn with_scale(scales: Seq<DimensionScaleView>, s: DimensionScaleView) -> Seq<
    DimensionScaleView,
> {
    match place_of(scales, s.address, 0) {
        Some(i) => scales.update(i, s),
        None => scales.push(s),
    }
}

/// The scales among the first `n` datasets.
pub open spec fn scales_among(datasets: Seq<DatasetIndex>, n: int) -> Seq<DimensionScaleView>
    decreases n,
{
    if n <= 0 {
        Seq::empty()
    } else {
        let before = scales_among(datasets, n - 1);
        match scale_of(datasets[n - 1]) {
            Some(s) => with_scale(before, s),
            None => before,
        }
    }
}

/// Every dimension scale among the datasets.
pub open spec fn scales_of(datasets: Seq<DatasetIndex>) -> Seq<DimensionScaleView> {
    scales_among(datasets, datasets.len() as int)
}

proof fn lemma_place_of(scales: Seq<DimensionScaleView>, address: u64, i: int)
    requires
        0 <= i <= scales.len(),
    ensures
        match place_of(scales, address, i) {
            Some(k) => i <= k < scales.len() && scales[k].address == address,
            None => forall|k: int| i <= k < scales.len() ==> (#[trigger] scales[k]).address != address,
        },
    decreases scales.len() - i,
{
    if i < scales.len() && scales[i].address != address {
        lemma_place_of(scales, address, i + 1);
    }
}

/// No two dimension scales have the same address.
pub proof fn scales_have_distinct_addresses(datasets: Seq<DatasetIndex>, n: int, i: int, j: int)
    requires
        0 <= i < j < scales_among(datasets, n).len(),
    ensures
        scales_among(datasets, n)[i].address != scales_among(datasets, n)[j].address,
    decreases n,
{
    if n > 0 {
        let before = scales_among(datasets, n - 1);
        match scale_of(datasets[n - 1]) {
            Some(s) => {
                lemma_place_of(before, s.address, 0);
                if j < before.len() {
                    scales_have_distinct_addresses(datasets, n - 1, i, j);
                    match place_of(before, s.address, 0) {
                        Some(k) => {
                            assert(before[k].address == s.address);
                        },
                        None => {},
                    }
                }
            },
            None => {
                scales_have_distinct_addresses(datasets, n - 1, i, j);
            },
        }
    }
}

fn first_text(attributes: &Vec<Attribute>, name: &str) -> (r: Option<String>)
    ensures
        option_view(r) == text_of(attributes@, name@),
{
    let a = find_named(attributes, name)?;
    decode_text(&a.datatype, a.data.as_slice())
}

fn first_int(attributes: &Vec<Attribute>, name: &str) -> (r: Option<i64>)
    ensures
        r == int_of(attributes@, name@),
{
    let a = find_named(attributes, name)?;
    match decode_ints(&a.datatype, a.data.as_slice()) {
        Ok(v) => if v.len() == 0 {
            None
        } else {
            Some(v[0])
        },
        Err(_) => None,
    }
}

fn starts_with(text: &String, prefix: &str) -> (r: bool)
    ensures
        r == begins_with(text@, prefix@),
{
    let n: usize = prefix.unicode_len();
    if text.as_str().unicode_len() < n {
        return false;
    }
    assert(text@.subrange(0, n as int) =~= text@.take(n as int));
    String::from_str(text.as_str().substring_char(0, n)) == String::from_str(prefix)
}

fn dimension_scale(dataset: &DatasetIndex) -> (r: Option<DimensionScale>)
    ensures
        option_view(r) == scale_of(*dataset),
{
    let class = first_text(&dataset.attributes, "CLASS")?;
    if class != String::from_str("DIMENSION_SCALE") {
        return None;
    }
    // The dimension's name is the dataset's own name. The `NAME` attribute
    // says whether a coordinate variable shares it.
    let is_variable: bool = match first_text(&dataset.attributes, "NAME") {
        Some(n) => !starts_with(&n, PHANTOM_DIMENSION_PREFIX),
        None => true,
    };
    let id: Option<i64> = first_int(&dataset.attributes, "_Netcdf4Dimid");
    let len: u64 = if dataset.shape.len() == 0 { 1 } else { dataset.shape[0] };
    let is_unlimited: bool = match &dataset.max_shape {
        Some(m) => m.len() > 0 && m[0] == u64::MAX,
        None => false,
    };
    Some(
        DimensionScale {
            address: dataset.address,
            name: dataset.name.clone(),
            len,
            is_unlimited,
            id,
            is_variable,
        },
    )
}

pub(crate) fn find_scale(scales: &Vec<DimensionScale>, address: u64) -> (r: Option<usize>)
    ensures
        match place_of(views(scales@), address, 0) {
            Some(i) => r is Some && r->Some_0 == i && i < scales@.len() && 0 <= i,
            None => r is None,
        },
{
    let mut i: usize = 0;
    while i < scales.len()
        invariant
            i <= scales@.len(),
            place_of(views(scales@), address, 0) == place_of(views(scales@), address, i as int),
        decreases scales@.len() - i,
    {
        if scales[i].address == address {
            return Some(i);
        }
        i = i + 1;
    }
    None
}

/// Find every dimension scale in the file, by object header address.
///
/// The address is the key because `DIMENSION_LIST` references point at object
/// headers, not at names.
pub fn collect_dimension_scales<S: ByteSource + ?Sized>(hdf5: &Hdf5File<S>) -> (r: Vec<
    DimensionScale,
>)
    ensures
        views(r@) == scales_of(datasets_of(hdf5.root)),
{
    let all = hdf5.datasets();
    let ghost datasets = datasets_of(hdf5.root);
    let mut out: Vec<DimensionScale> = Vec::new();
    let mut n: usize = 0;
    while n < all.len()
        invariant
            n <= all@.len(),
            refers_to(all@, datasets),
            views(out@) == scales_among(datasets, n as int),
        decreases all@.len() - n,
    {
        match dimension_scale(all[n]) {
            Some(s) => {
                let ghost before = views(out@);
                let ghost sv = s@;
                match find_scale(&out, s.address) {
                    Some(i) => {
                        out[i] = s;
                        assert(views(out@) =~= before.update(i as int, sv));
                    },
                    None => {
                        out.push(s);
                    },
                }
            },
            None => {},
        }
        n = n + 1;
    }
    out
}

// ── dimensions of a variable ───────────────────────────────────────────────

/// The names of the remaining axes, after those in `out`.
///
/// Each axis has one variable-length sequence of object references to the
/// dimension scales for that axis; netCDF uses the first. An axis without one,
/// or one whose reference leads nowhere, leaves the whole list unresolved.
pub open spec fn axis_names(
    ctx: CtxView,
    data: Seq<u8>,
    scales: Seq<DimensionScaleView>,
    rank: nat,
    out: Seq<Seq<char>>,
) -> std::result::Result<Option<Seq<Seq<char>>>, ErrorView>
    decreases rank - out.len(),
{
    if out.len() >= rank {
        Ok(Some(out))
    } else {
        let len = descriptor_len(ctx.sizes());
        let start = (out.len() * len) as int;
        let width = ctx.sizes().offset as int;
        match value_of(descriptor_at(data.subrange(start, start + len), 0, ctx.sizes())) {
            Err(e) => Err(e),
            Ok(d) => if d.length == 0 {
                Ok(None)
            } else {
                match heap_at(ctx, d.collection_address) {
                    Err(e) => Err(e),
                    Ok(heap) => match object_of(heap, d.object_index as u16, 0) {
                        None => Ok(None),
                        Some(object) => if object.len() < width {
                            Ok(None)
                        } else {
                            match place_of(scales, le_value(object.take(width)) as u64, 0) {
                                None => Ok(None),
                                Some(i) => axis_names(ctx, data, scales, rank, out.push(scales[i].name)),
                            }
                        },
                    },
                }
            },
        }
    }
}

/// Follow a `DIMENSION_LIST` attribute to one dimension name per axis.
pub open spec fn names_from_list(
    ctx: CtxView,
    d: DatatypeView,
    data: Seq<u8>,
    scales: Seq<DimensionScaleView>,
    rank: nat,
) -> std::result::Result<Option<Seq<Seq<char>>>, ErrorView> {
    if !(d.class is VariableLength) || data.len() < rank * descriptor_len(ctx.sizes()) {
        Ok(None)
    } else {
        axis_names(ctx, data, scales, rank, Seq::empty())
    }
}

/// Whether following a `DIMENSION_LIST` attribute reads anything: its first axis
/// decides.
pub open spec fn list_reads(ctx: CtxView, d: DatatypeView, data: Seq<u8>, rank: nat) -> bool {
    let len = descriptor_len(ctx.sizes());
    &&& d.class is VariableLength
    &&& rank > 0
    &&& data.len() >= rank * len
    &&& value_of(descriptor_at(data.subrange(0, len as int), 0, ctx.sizes())) matches Ok(first)
        && first.reads(ctx)
}

/// The place from `i` on of a scale with that dimension id.
pub open spec fn place_of_id(scales: Seq<DimensionScaleView>, id: i64, i: int) -> Option<int>
    decreases scales.len() - i,
{
    if i >= scales.len() {
        None
    } else if scales[i].id == Some(id) {
        Some(i)
    } else {
        place_of_id(scales, id, i + 1)
    }
}

/// The names of the dimensions with those ids, if all of them exist.
pub open spec fn names_by_id(
    scales: Seq<DimensionScaleView>,
    ids: Seq<i64>,
    out: Seq<Seq<char>>,
) -> Option<Seq<Seq<char>>>
    decreases ids.len() - out.len(),
{
    if out.len() >= ids.len() {
        Some(out)
    } else {
        match place_of_id(scales, ids[out.len() as int], 0) {
            None => None,
            Some(i) => names_by_id(scales, ids, out.push(scales[i].name)),
        }
    }
}

/// The dimension names that the ids of a variable give, if they give any.
pub open spec fn names_from_ids(
    attributes: Seq<Attribute>,
    scales: Seq<DimensionScaleView>,
    rank: nat,
) -> Option<Seq<Seq<char>>> {
    match lookup(attributes, "_Netcdf4Coordinates"@) {
        Some(a) => match ints_of(a.datatype@, a.data@) {
            Ok(ids) => if ids.len() == rank {
                names_by_id(scales, ids, Seq::empty())
            } else {
                None
            },
            Err(_) => None,
        },
        None => None,
    }
}

/// Generated names for axes that nothing names.
pub open spec fn phony_names(rank: nat) -> Seq<Seq<char>> {
    Seq::new(rank, |i: int| "phony_dim_"@ + decimal(i as nat))
}

/// The dimension name for each axis of a variable, if the file attaches one to
/// each.
///
/// A scalar has none. A coordinate variable is its own dimension on axis 0.
/// Otherwise the reference list decides, then the dimension ids, which netcdf-c
/// writes for the cases where a reference list alone would be ambiguous.
pub open spec fn attached_dimensions(
    ctx: CtxView,
    d: DatasetIndex,
    scales: Seq<DimensionScaleView>,
    is_coordinate: bool,
) -> std::result::Result<Option<Seq<Seq<char>>>, ErrorView> {
    let rank = d.shape@.len();
    if rank == 0 {
        Ok(Some(Seq::empty()))
    } else if is_coordinate && rank == 1 {
        Ok(Some(seq![d.name@]))
    } else {
        match lookup(d.attributes@, "DIMENSION_LIST"@) {
            None => Ok(names_from_ids(d.attributes@, scales, rank)),
            Some(a) => match names_from_list(ctx, a.datatype@, a.data@, scales, rank) {
                Err(e) => Err(e),
                Ok(Some(names)) => Ok(Some(names)),
                Ok(None) => Ok(names_from_ids(d.attributes@, scales, rank)),
            },
        }
    }
}

/// Whether naming the axes of a variable reads anything: only a reference list that
/// is followed does.
pub open spec fn dimensions_read(ctx: CtxView, d: DatasetIndex, is_coordinate: bool) -> bool {
    let rank = d.shape@.len();
    &&& rank > 0
    &&& !(is_coordinate && rank == 1)
    &&& lookup(d.attributes@, "DIMENSION_LIST"@) matches Some(a) && list_reads(
        ctx,
        a.datatype@,
        a.data@,
        rank,
    )
}

/// The dimension name for each axis of a variable. Where the file attaches
/// none, the names are placeholders.
pub open spec fn dimensions_of(
    ctx: CtxView,
    d: DatasetIndex,
    scales: Seq<DimensionScaleView>,
    is_coordinate: bool,
) -> std::result::Result<Seq<Seq<char>>, ErrorView> {
    match attached_dimensions(ctx, d, scales, is_coordinate) {
        Err(e) => Err(e),
        Ok(Some(names)) => Ok(names),
        Ok(None) => Ok(phony_names(d.shape@.len())),
    }
}

/// Follow a `DIMENSION_LIST` attribute to one dimension name per axis.
///
/// The attribute holds one variable-length sequence per axis. Each sequence
/// holds object references to the dimension scales for that axis; netCDF uses
/// the first.
fn resolve_from_dimension_list<S: ByteSource + ?Sized>(
    ctx: Ctx<'_, S>,
    attr: &Attribute,
    scales: &Vec<DimensionScale>,
    heaps: &mut HeapCache,
    rank: usize,
) -> (r: Result<Option<Vec<String>>>)
    requires
        old(heaps).faithful(ctx@),
    ensures
        final(heaps).faithful(ctx@),
        agrees(
            match r {
                Ok(Some(v)) => Ok(Some(views(v@))),
                Ok(None) => Ok(None),
                Err(e) => Err(e@),
            },
            names_from_list(ctx@, attr.datatype@, attr.data@, views(scales@), rank as nat),
            ctx.dependable() || !list_reads(ctx@, attr.datatype@, attr.data@, rank as nat),
        ),
{
    match &attr.datatype.class {
        DatatypeClass::VariableLength { .. } => {},
        _ => {
            return Ok(None);
        },
    }
    let sizes: Sizes = ctx.sizes();
    let len: usize = VlenDescriptor::encoded_len(sizes);
    let width: usize = sizes.offset as usize;
    let data = attr.data.as_slice();
    assert(rank * len <= u128::MAX) by (nonlinear_arith)
        requires
            rank <= u64::MAX,
            len <= 263,
    ;
    if (data.len() as u128) < rank as u128 * len as u128 {
        return Ok(None);
    }
    let ghost want = axis_names(ctx@, attr.data@, views(scales@), rank as nat, Seq::empty());
    let mut names: Vec<String> = Vec::new();
    while names.len() < rank
        invariant
            data@ == attr.data@,
            data@.len() <= usize::MAX,
            sizes == ctx@.sizes(),
            len == descriptor_len(sizes),
            width == sizes.offset,
            rank * len <= data@.len(),
            names@.len() <= rank,
            heaps.faithful(ctx@),
            want == names_from_list(
                ctx@,
                attr.datatype@,
                attr.data@,
                views(scales@),
                rank as nat,
            ),
            want == axis_names(ctx@, attr.data@, views(scales@), rank as nat, views(names@)),
            attr.datatype@.class is VariableLength,
            names@.len() > 0 ==> list_reads(ctx@, attr.datatype@, attr.data@, rank as nat),
        decreases rank - names@.len(),
    {
        proof {
            let n = names@.len() as int;
            assert(0 <= n * len && n * len + len <= rank * len) by (nonlinear_arith)
                requires
                    0 <= n,
                    n + 1 <= rank,
                    0 <= len,
            ;
        }
        let start: usize = names.len() * len;
        let descriptor = VlenDescriptor::parse(slice_subrange(data, start, start + len), sizes)?;
        if descriptor.length == 0 {
            return Ok(None);
        }
        heaps.load(ctx, descriptor.collection_address)?;
        let object = match heaps.collection(descriptor.collection_address) {
            Some(heap) => heap.object(
                #[verifier::truncate]
                (descriptor.object_index as u16),
            ),
            None => None,
        };
        match object {
            None => {
                return Ok(None);
            },
            Some(object) => {
                // An object reference is the address of the target's object
                // header.
                if object.data.len() < width || width > 8 {
                    return Ok(None);
                }
                let reference = slice_subrange(object.data.as_slice(), 0, width);
                assert(reference@ =~= object.data@.take(width as int));
                let address: u64 = from_le(reference);
                match find_scale(scales, address) {
                    Some(i) => {
                        names.push(scales[i].name.clone());
                    },
                    None => {
                        return Ok(None);
                    },
                }
            },
        }
    }
    Ok(Some(names))
}

fn find_by_id(scales: &Vec<DimensionScale>, id: i64) -> (r: Option<usize>)
    ensures
        match place_of_id(views(scales@), id, 0) {
            Some(i) => r is Some && r->Some_0 == i && 0 <= i < scales@.len(),
            None => r is None,
        },
{
    let mut i: usize = 0;
    while i < scales.len()
        invariant
            i <= scales@.len(),
            place_of_id(views(scales@), id, 0) == place_of_id(views(scales@), id, i as int),
        decreases scales@.len() - i,
    {
        match scales[i].id {
            Some(other) => if other == id {
                return Some(i);
            },
            None => {},
        }
        i = i + 1;
    }
    None
}

fn resolve_from_ids(attributes: &Vec<Attribute>, scales: &Vec<DimensionScale>, rank: usize) -> (r:
    Option<Vec<String>>)
    ensures
        match names_from_ids(attributes@, views(scales@), rank as nat) {
            Some(names) => r is Some && views(r->Some_0@) == names,
            None => r is None,
        },
{
    let a = find_named(attributes, "_Netcdf4Coordinates")?;
    let ids = match decode_ints(&a.datatype, a.data.as_slice()) {
        Ok(ids) => ids,
        Err(_) => {
            return None;
        },
    };
    if ids.len() != rank {
        return None;
    }
    let ghost want = names_by_id(views(scales@), ids@, Seq::empty());
    let mut names: Vec<String> = Vec::new();
    while names.len() < ids.len()
        invariant
            names@.len() <= ids@.len(),
            want == names_from_ids(attributes@, views(scales@), rank as nat),
            want == names_by_id(views(scales@), ids@, views(names@)),
        decreases ids@.len() - names@.len(),
    {
        match find_by_id(scales, ids[names.len()]) {
            Some(i) => {
                names.push(scales[i].name.clone());
            },
            None => {
                return None;
            },
        }
    }
    Some(names)
}

fn phony_dimensions(rank: usize) -> (r: Vec<String>)
    ensures
        views(r@) == phony_names(rank as nat),
{
    let mut out: Vec<String> = Vec::new();
    while out.len() < rank
        invariant
            out@.len() <= rank,
            views(out@) == phony_names(rank as nat).take(out@.len() as int),
        decreases rank - out@.len(),
    {
        out.push(numbered("phony_dim_", out.len() as u64));
        assert(views(out@) =~= phony_names(rank as nat).take(out@.len() as int));
    }
    assert(views(out@) =~= phony_names(rank as nat));
    out
}

/// Work out the dimension name for each axis of a variable, if the file attaches
/// one to each.
pub fn resolve_attached<S: ByteSource + ?Sized>(
    ctx: Ctx<'_, S>,
    dataset: &DatasetIndex,
    scales: &Vec<DimensionScale>,
    heaps: &mut HeapCache,
    is_coordinate: bool,
) -> (r: Result<Option<Vec<String>>>)
    requires
        old(heaps).faithful(ctx@),
    ensures
        final(heaps).faithful(ctx@),
        agrees(
            match r {
                Ok(Some(v)) => Ok(Some(views(v@))),
                Ok(None) => Ok(None),
                Err(e) => Err(e@),
            },
            attached_dimensions(ctx@, *dataset, views(scales@), is_coordinate),
            ctx.dependable() || !dimensions_read(ctx@, *dataset, is_coordinate),
        ),
{
    let rank: usize = dataset.shape.len();
    if rank == 0 {
        return Ok(Some(Vec::new()));
    }
    // A coordinate variable is its own dimension on axis 0.
    if is_coordinate && rank == 1 {
        let out: Vec<String> = vec![dataset.name.clone()];
        assert(views(out@) =~= seq![dataset.name@]);
        return Ok(Some(out));
    }
    if let Some(attr) = dataset.attribute("DIMENSION_LIST") {
        if let Some(names) = resolve_from_dimension_list(ctx, attr, scales, heaps, rank)? {
            return Ok(Some(names));
        }
    }
    // Fall back to the dimension ids, which netcdf-c writes for the cases where
    // a reference list alone would be ambiguous.
    Ok(resolve_from_ids(&dataset.attributes, scales, rank))
}

/// Work out the dimension name for each axis of a variable.
pub fn resolve_dimensions<S: ByteSource + ?Sized>(
    ctx: Ctx<'_, S>,
    dataset: &DatasetIndex,
    scales: &Vec<DimensionScale>,
    heaps: &mut HeapCache,
    is_coordinate: bool,
) -> (r: Result<Vec<String>>)
    requires
        old(heaps).faithful(ctx@),
    ensures
        final(heaps).faithful(ctx@),
        agrees(
            match r {
                Ok(v) => Ok(views(v@)),
                Err(e) => Err(e@),
            },
            dimensions_of(ctx@, *dataset, views(scales@), is_coordinate),
            ctx.dependable() || !dimensions_read(ctx@, *dataset, is_coordinate),
        ),
{
    match resolve_attached(ctx, dataset, scales, heaps, is_coordinate)? {
        Some(names) => Ok(names),
        // Nothing resolved. Generate placeholder names rather than invent real
        // ones.
        None => Ok(phony_dimensions(dataset.shape.len())),
    }
}

// ── attributes ─────────────────────────────────────────────────────────────

/// What following an attribute's pointers into the global heap gives, for a
/// variable-length string. A failure leaves the attribute undecoded.
pub open spec fn heap_strings(ctx: CtxView, owner: Seq<char>, a: Attribute) -> Option<
    Seq<Seq<char>>,
> {
    match a.datatype@.class {
        ClassView::VariableLength { kind, .. } => if kind is String && a.dataspace@.count()
            <= u64::MAX {
            match strings_from(ctx, owner, a.data@, a.dataspace@.count(), Seq::empty()) {
                Ok(s) => Some(s),
                Err(_) => None,
            }
        } else {
            None
        },
        _ => None,
    }
}

/// The attributes among the first `n` that netCDF shows, decoded.
pub open spec fn visible_among(
    ctx: CtxView,
    owner: Seq<char>,
    attributes: Seq<Attribute>,
    n: int,
) -> Seq<NcAttributeView>
    decreases n,
{
    if n <= 0 {
        Seq::empty()
    } else {
        let a = attributes[n - 1];
        let before = visible_among(ctx, owner, attributes, n - 1);
        if reserved(a.name@) {
            before
        } else {
            before.push(
                NcAttributeView {
                    name: a.name@,
                    value: attribute_value(a.datatype@, a.data@, heap_strings(ctx, owner, a)),
                },
            )
        }
    }
}

/// The attributes that netCDF shows, decoded.
pub open spec fn visible_of(ctx: CtxView, owner: Seq<char>, attributes: Seq<Attribute>) -> Seq<
    NcAttributeView,
> {
    visible_among(ctx, owner, attributes, attributes.len() as int)
}

/// Those of the first `n` attributes that netCDF shows.
pub open spec fn shown_attributes(attributes: Seq<Attribute>, n: int) -> Seq<Attribute>
    decreases n,
{
    if n <= 0 {
        Seq::empty()
    } else if reserved(attributes[n - 1].name@) {
        shown_attributes(attributes, n - 1)
    } else {
        shown_attributes(attributes, n - 1).push(attributes[n - 1])
    }
}

/// Whether decoding an attribute reads anything: only a variable-length string
/// stands elsewhere in the file.
pub open spec fn attribute_reads(ctx: CtxView, a: Attribute) -> bool {
    &&& a.datatype@.class matches ClassView::VariableLength { kind, .. } && kind is String
    &&& a.dataspace@.count() <= u64::MAX
    &&& follows(ctx, a.data@, a.dataspace@.count(), 0)
}

/// The attribute is the one wanted. Where the storage may fail, a variable-length
/// string that has to be read may have kept its own bytes instead.
pub open spec fn attribute_agrees(
    ctx: CtxView,
    got: NcAttributeView,
    want: NcAttributeView,
    a: Attribute,
    dependable: bool,
) -> bool {
    &&& got.name == want.name
    &&& got.value == want.value || (!dependable && attribute_reads(ctx, a) && got.value
        == AttributeValueView::Raw(a.data@))
}

/// The attributes are those wanted, each up to a string that could not be read.
/// They are `shown`, one by one.
pub open spec fn attributes_agree(
    ctx: CtxView,
    got: Seq<NcAttributeView>,
    want: Seq<NcAttributeView>,
    shown: Seq<Attribute>,
    dependable: bool,
) -> bool {
    got.len() == want.len() == shown.len() && forall|i: int|
        0 <= i < got.len() ==> attribute_agrees(
            ctx,
            #[trigger] got[i],
            want[i],
            shown[i],
            dependable,
        )
}

fn follow_strings<S: ByteSource + ?Sized>(ctx: Ctx<'_, S>, owner: &str, a: &Attribute) -> (r: Option<
    Vec<String>,
>)
    ensures
        match r {
            Some(v) => heap_strings(ctx@, owner@, *a) == Some(views(v@)),
            None => heap_strings(ctx@, owner@, *a) is None || (!ctx.dependable()
                && attribute_reads(ctx@, *a)),
        },
{
    match &a.datatype.class {
        DatatypeClass::VariableLength { kind, .. } => {
            if *kind != VlenKind::String {
                return None;
            }
            match a.dataspace.checked_element_count() {
                Some(count) => match resolve_vlen_strings_of(ctx, owner, a.data.as_slice(), count) {
                    Ok(v) => Some(v),
                    Err(_) => None,
                },
                None => None,
            }
        },
        _ => None,
    }
}

/// Drop the netCDF bookkeeping attributes and decode the rest.
pub fn visible_attributes<S: ByteSource + ?Sized>(
    ctx: Ctx<'_, S>,
    owner: &str,
    attributes: &Vec<Attribute>,
) -> (r: Vec<NcAttribute>)
    ensures
        attributes_agree(
            ctx@,
            views(r@),
            visible_of(ctx@, owner@, attributes@),
            shown_attributes(attributes@, attributes@.len() as int),
            ctx.dependable(),
        ),
{
    let mut out: Vec<NcAttribute> = Vec::new();
    let mut n: usize = 0;
    while n < attributes.len()
        invariant
            n <= attributes@.len(),
            attributes_agree(
                ctx@,
                views(out@),
                visible_among(ctx@, owner@, attributes@, n as int),
                shown_attributes(attributes@, n as int),
                ctx.dependable(),
            ),
        decreases attributes@.len() - n,
    {
        let a = &attributes[n];
        if !is_reserved(&a.name) {
            // A variable-length string is a descriptor into the global heap, so
            // follow it. Without this the attribute would surface as raw heap
            // pointers.
            let strings = follow_strings(ctx, owner, a);
            let value = decode_value(&a.datatype, a.data.as_slice(), strings);
            let ghost before = views(out@);
            out.push(NcAttribute { name: a.name.clone(), value });
            assert(views(out@) =~= before.push(out@.last()@));
        }
        n = n + 1;
    }
    out
}

/// A reserved attribute is never shown.
pub proof fn reserved_attributes_are_never_shown(
    ctx: CtxView,
    owner: Seq<char>,
    attributes: Seq<Attribute>,
    n: int,
    i: int,
)
    requires
        0 <= i < visible_among(ctx, owner, attributes, n).len(),
    ensures
        !reserved(visible_among(ctx, owner, attributes, n)[i].name),
    decreases n,
{
    if n > 0 && i < visible_among(ctx, owner, attributes, n - 1).len() {
        reserved_attributes_are_never_shown(ctx, owner, attributes, n - 1, i);
    }
}

/// Every attribute that is not reserved is shown, under its own name.
pub proof fn other_attributes_are_always_shown(
    ctx: CtxView,
    owner: Seq<char>,
    attributes: Seq<Attribute>,
    k: int,
)
    requires
        0 <= k < attributes.len(),
        !reserved(attributes[k].name@),
    ensures
        exists|i: int|
            0 <= i < visible_of(ctx, owner, attributes).len() && (#[trigger] visible_of(
                ctx,
                owner,
                attributes,
            )[i]).name == attributes[k].name@,
{
    let n = attributes.len() as int;
    lemma_shown(ctx, owner, attributes, n, k);
    let all = visible_among(ctx, owner, attributes, n);
    let i = choose|i: int|
        0 <= i < all.len() && (#[trigger] all[i]).name == attributes[k].name@;
    assert(visible_of(ctx, owner, attributes)[i].name == attributes[k].name@);
}

proof fn lemma_shown(ctx: CtxView, owner: Seq<char>, attributes: Seq<Attribute>, n: int, k: int)
    requires
        0 <= k < n <= attributes.len(),
        !reserved(attributes[k].name@),
    ensures
        exists|i: int|
            0 <= i < visible_among(ctx, owner, attributes, n).len() && (#[trigger] visible_among(
                ctx,
                owner,
                attributes,
                n,
            )[i]).name == attributes[k].name@,
    decreases n,
{
    let now = visible_among(ctx, owner, attributes, n);
    let before = visible_among(ctx, owner, attributes, n - 1);
    if k == n - 1 {
        assert(now[now.len() - 1].name == attributes[k].name@);
    } else {
        lemma_shown(ctx, owner, attributes, n - 1, k);
        let i = choose|i: int|
            0 <= i < before.len() && (#[trigger] before[i]).name == attributes[k].name@;
        assert(now[i] == before[i]);
    }
}

/// The attributes of a classic file, decoded. A classic file has no reserved
/// attribute names and no variable-length values.
pub open spec fn classic_values(attributes: Seq<ClassicAttributeView>) -> Seq<
    NcAttributeView,
> {
    Seq::new(
        attributes.len(),
        |i: int|
            NcAttributeView {
                name: attributes[i].name,
                value: attribute_value(
                    datatype_of(attributes[i].nc_type),
                    attributes[i].raw,
                    None,
                ),
            },
    )
}

/// Decode a classic file's attributes.
///
/// Each value goes through the same decoder as that of an HDF5 file and keeps
/// its type.
pub fn classic_attributes(attributes: &Vec<ClassicAttribute>) -> (r: Vec<NcAttribute>)
    ensures
        views(r@) == classic_values(views(attributes@)),
{
    let ghost want = classic_values(views(attributes@));
    let mut out: Vec<NcAttribute> = Vec::new();
    while out.len() < attributes.len()
        invariant
            want == classic_values(views(attributes@)),
            out@.len() <= attributes@.len(),
            views(out@) == want.take(out@.len() as int),
        decreases attributes@.len() - out@.len(),
    {
        let a = &attributes[out.len()];
        let datatype = a.nc_type.to_datatype();
        let value = decode_value(&datatype, a.raw.as_slice(), None);
        out.push(NcAttribute { name: a.name.clone(), value });
        assert(views(out@) =~= want.take(out@.len() as int));
    }
    assert(views(out@) =~= want);
    out
}

// ── the order of dimensions ────────────────────────────────────────────────

/// Text `a` comes before text `b`: at the first difference, the lower code
/// point does, and a text that runs out first comes first.
pub open spec fn text_before(a: Seq<char>, b: Seq<char>) -> bool
    decreases a.len(),
{
    if b.len() == 0 {
        false
    } else if a.len() == 0 {
        true
    } else {
        a[0] < b[0] || (a[0] == b[0] && text_before(a.skip(1), b.skip(1)))
    }
}

/// The id that a dimension is ordered by. One without an id comes last.
pub open spec fn order_id(d: NcDimensionView) -> i64 {
    match d.id {
        Some(id) => id,
        None => i64::MAX,
    }
}

/// Dimension `a` comes before dimension `b`: by id, then by name.
pub open spec fn dimension_before(a: NcDimensionView, b: NcDimensionView) -> bool {
    order_id(a) < order_id(b) || (order_id(a) == order_id(b) && text_before(a.name, b.name))
}

/// The first place from `i` on that `d` comes before.
pub open spec fn place_for(sorted: Seq<NcDimensionView>, d: NcDimensionView, i: int) -> int
    decreases sorted.len() - i,
{
    if i >= sorted.len() || dimension_before(d, sorted[i]) {
        i
    } else {
        place_for(sorted, d, i + 1)
    }
}

/// The dimensions in order. Those that no order decides keep the one they came
/// in.
pub open spec fn sorted_dimensions(dims: Seq<NcDimensionView>) -> Seq<NcDimensionView>
    decreases dims.len(),
{
    if dims.len() == 0 {
        Seq::empty()
    } else {
        let before = sorted_dimensions(dims.drop_last());
        before.insert(place_for(before, dims.last(), 0), dims.last())
    }
}

fn name_is_before(a: &str, b: &str) -> (r: bool)
    ensures
        r == text_before(a@, b@),
{
    let (m, n): (usize, usize) = (a.unicode_len(), b.unicode_len());
    let mut i: usize = 0;
    assert(a@.skip(0) =~= a@);
    assert(b@.skip(0) =~= b@);
    while i < m && i < n
        invariant
            m == a@.len(),
            n == b@.len(),
            i <= m,
            i <= n,
            text_before(a@, b@) == text_before(a@.skip(i as int), b@.skip(i as int)),
        decreases m - i,
    {
        let (x, y): (u32, u32) = (a.get_char(i) as u32, b.get_char(i) as u32);
        if x < y {
            return true;
        }
        if y < x {
            return false;
        }
        assert(a@.skip(i as int).skip(1) =~= a@.skip(i + 1));
        assert(b@.skip(i as int).skip(1) =~= b@.skip(i + 1));
        i = i + 1;
    }
    i < n
}

fn comes_before(a: &NcDimension, b: &NcDimension) -> (r: bool)
    ensures
        r == dimension_before(a@, b@),
{
    let x: i64 = match a.id {
        Some(id) => id,
        None => i64::MAX,
    };
    let y: i64 = match b.id {
        Some(id) => id,
        None => i64::MAX,
    };
    x < y || (x == y && name_is_before(a.name.as_str(), b.name.as_str()))
}

proof fn lemma_place_for(sorted: Seq<NcDimensionView>, d: NcDimensionView, i: int)
    requires
        0 <= i <= sorted.len(),
    ensures
        i <= place_for(sorted, d, i) <= sorted.len(),
        place_for(sorted, d, i) < sorted.len() ==> dimension_before(
            d,
            sorted[place_for(sorted, d, i)],
        ),
        forall|k: int| i <= k < place_for(sorted, d, i) ==> !dimension_before(d, #[trigger] sorted[k]),
    decreases sorted.len() - i,
{
    if i < sorted.len() && !dimension_before(d, sorted[i]) {
        lemma_place_for(sorted, d, i + 1);
    }
}

/// Add a dimension to those that are in order.
pub(crate) fn insert_dimension(sorted: &mut Vec<NcDimension>, d: NcDimension)
    ensures
        views(final(sorted)@) == views(old(sorted)@).insert(
            place_for(views(old(sorted)@), d@, 0),
            d@,
        ),
{
    let ghost before = views(sorted@);
    let ghost dv = d@;
    let mut i: usize = 0;
    while i < sorted.len() && !comes_before(&d, &sorted[i])
        invariant
            i <= sorted@.len(),
            d@ == dv,
            views(sorted@) == before,
            place_for(before, dv, 0) == place_for(before, dv, i as int),
        decreases sorted@.len() - i,
    {
        i = i + 1;
    }
    sorted.insert(i, d);
    assert(views(sorted@) =~= before.insert(i as int, dv));
}

proof fn lemma_text_before_transitive(a: Seq<char>, b: Seq<char>, c: Seq<char>)
    requires
        text_before(a, b),
        text_before(b, c),
    ensures
        text_before(a, c),
    decreases a.len(),
{
    if a.len() > 0 && a[0] == b[0] && b[0] == c[0] {
        lemma_text_before_transitive(a.skip(1), b.skip(1), c.skip(1));
    }
}

proof fn lemma_text_before_irreflexive(a: Seq<char>)
    ensures
        !text_before(a, a),
    decreases a.len(),
{
    if a.len() > 0 {
        lemma_text_before_irreflexive(a.skip(1));
    }
}

/// If `d` comes before `x`, and `y` does not come before `x`, then `y` does not
/// come before `d`.
proof fn lemma_order(d: NcDimensionView, x: NcDimensionView, y: NcDimensionView)
    requires
        dimension_before(d, x),
        !dimension_before(y, x),
    ensures
        !dimension_before(y, d),
{
    if dimension_before(y, d) {
        if order_id(y) == order_id(d) && order_id(d) == order_id(x) {
            lemma_text_before_transitive(y.name, d.name, x.name);
        }
    }
}

/// netCDF reports dimensions in id order where ids exist: no dimension stands
/// behind one that comes after it, and none is lost or added.
pub proof fn dimensions_come_in_order(dims: Seq<NcDimensionView>)
    ensures
        forall|i: int, j: int|
            0 <= i < j < sorted_dimensions(dims).len() ==> !dimension_before(
                #[trigger] sorted_dimensions(dims)[j],
                #[trigger] sorted_dimensions(dims)[i],
            ),
        sorted_dimensions(dims).to_multiset() == dims.to_multiset(),
    decreases dims.len(),
{
    let all = sorted_dimensions(dims);
    if dims.len() > 0 {
        let before = sorted_dimensions(dims.drop_last());
        let d = dims.last();
        let p = place_for(before, d, 0);
        dimensions_come_in_order(dims.drop_last());
        lemma_place_for(before, d, 0);
        assert forall|i: int, j: int| 0 <= i < j < all.len() implies !dimension_before(
            #[trigger] all[j],
            #[trigger] all[i],
        ) by {
            let (bi, bj) = (
                if i < p {
                    i
                } else {
                    i - 1
                },
                if j < p {
                    j
                } else {
                    j - 1
                },
            );
            if i == p {
                // `d` comes before what stood at `p`, and so before all behind it.
                let x = before[p];
                let y = before[bj];
                assert(all[j] == y);
                if bj == p {
                    if dimension_before(y, d) {
                        lemma_text_before_irreflexive(d.name);
                        if order_id(y) == order_id(d) {
                            lemma_text_before_transitive(d.name, y.name, d.name);
                        }
                    }
                } else {
                    assert(!dimension_before(y, x));
                    lemma_order(d, x, y);
                }
            } else if j == p {
                assert(all[i] == before[i]);
                assert(!dimension_before(d, before[i]));
            } else {
                assert(all[i] == before[bi]);
                assert(all[j] == before[bj]);
            }
        }
        vstd::seq_lib::to_multiset_insert(before, p, d);
        assert(dims =~= dims.drop_last().push(d));
        vstd::seq_lib::to_multiset_build(dims.drop_last(), d);
    } else {
        assert(all =~= dims);
    }
}

// ── groups and variables ───────────────────────────────────────────────────

/// A dataset as a netCDF variable.
pub open spec fn variable_of(
    ctx: CtxView,
    d: DatasetIndex,
    scales: Seq<DimensionScaleView>,
    is_coordinate: bool,
) -> std::result::Result<NcVariableView, ErrorView> {
    match dimensions_of(ctx, d, scales, is_coordinate) {
        Err(e) => Err(e),
        Ok(dimensions) => Ok(
            NcVariableView {
                name: d.name@,
                path: d.path@,
                dimensions,
                shape: d.shape@,
                attributes: visible_of(ctx, d.path@, d.attributes@),
                attributes_complete: d.attributes_complete,
                is_coordinate,
            },
        ),
    }
}

/// A dimension scale as a netCDF dimension.
pub open spec fn dimension_of(s: DimensionScaleView) -> NcDimensionView {
    NcDimensionView {
        name: s.name,
        len: s.len,
        is_unlimited: s.is_unlimited,
        id: s.id,
        has_coordinate_variable: s.is_variable,
        is_phony: false,
    }
}

/// The dimensions of the first `n` datasets of a group.
pub open spec fn dimensions_among(
    datasets: Seq<DatasetIndex>,
    scales: Seq<DimensionScaleView>,
    n: int,
) -> Seq<NcDimensionView>
    decreases n,
{
    if n <= 0 {
        Seq::empty()
    } else {
        let before = dimensions_among(datasets, scales, n - 1);
        match place_of(scales, datasets[n - 1].address, 0) {
            Some(i) => before.push(dimension_of(scales[i])),
            None => before,
        }
    }
}

/// The variables of the first `n` datasets of a group. A dimension with no
/// coordinate variable is not a netCDF variable.
pub open spec fn variables_among(
    ctx: CtxView,
    datasets: Seq<DatasetIndex>,
    scales: Seq<DimensionScaleView>,
    n: int,
) -> std::result::Result<Seq<NcVariableView>, ErrorView>
    decreases n,
{
    if n <= 0 {
        Ok(Seq::empty())
    } else {
        match variables_among(ctx, datasets, scales, n - 1) {
            Err(e) => Err(e),
            Ok(before) => {
                let d = datasets[n - 1];
                let place = place_of(scales, d.address, 0);
                if place is Some && !scales[place->Some_0].is_variable {
                    Ok(before)
                } else {
                    match variable_of(ctx, d, scales, place is Some) {
                        Err(e) => Err(e),
                        Ok(v) => Ok(before.push(v)),
                    }
                }
            },
        }
    }
}

/// An HDF5 group as a netCDF group.
pub open spec fn group_of(ctx: CtxView, g: GroupIndex, scales: Seq<DimensionScaleView>) -> std::result::Result<
    NcGroupView,
    ErrorView,
>
    decreases g,
{
    match variables_among(ctx, g.datasets@, scales, g.datasets@.len() as int) {
        Err(e) => Err(e),
        Ok(variables) => match groups_of(ctx, g.groups@, scales) {
            Err(e) => Err(e),
            Ok(groups) => Ok(
                NcGroupView {
                    name: g.name@,
                    path: g.path@,
                    dimensions: sorted_dimensions(
                        dimensions_among(g.datasets@, scales, g.datasets@.len() as int),
                    ),
                    variables,
                    attributes: visible_of(ctx, g.path@, g.attributes@),
                    groups,
                },
            ),
        },
    }
}

/// HDF5 groups as netCDF groups. The first that fails decides.
pub open spec fn groups_of(ctx: CtxView, gs: Seq<GroupIndex>, scales: Seq<DimensionScaleView>) -> std::result::Result<
    Seq<NcGroupView>,
    ErrorView,
>
    decreases gs,
{
    if gs.len() == 0 {
        Ok(Seq::empty())
    } else {
        match groups_of(ctx, gs.drop_last(), scales) {
            Err(e) => Err(e),
            Ok(before) => match group_of(ctx, gs.last(), scales) {
                Err(e) => Err(e),
                Ok(g) => Ok(before.push(g)),
            },
        }
    }
}

/// Whether a dataset is shown as a variable: every one is, but for a dimension
/// that has no coordinate variable.
pub open spec fn shown(d: DatasetIndex, scales: Seq<DimensionScaleView>) -> bool {
    let place = place_of(scales, d.address, 0);
    place is Some ==> scales[place->Some_0].is_variable
}

/// Those of the first `n` datasets that are shown as variables.
pub open spec fn shown_among(
    datasets: Seq<DatasetIndex>,
    scales: Seq<DimensionScaleView>,
    n: int,
) -> Seq<DatasetIndex>
    decreases n,
{
    if n <= 0 {
        Seq::empty()
    } else if shown(datasets[n - 1], scales) {
        shown_among(datasets, scales, n - 1).push(datasets[n - 1])
    } else {
        shown_among(datasets, scales, n - 1)
    }
}

/// Whether naming the axes of the first `n` datasets reads anything.
pub open spec fn axes_read(
    ctx: CtxView,
    datasets: Seq<DatasetIndex>,
    scales: Seq<DimensionScaleView>,
    n: int,
) -> bool
    decreases n,
{
    n > 0 && (axes_read(ctx, datasets, scales, n - 1) || {
        let d = datasets[n - 1];
        shown(d, scales) && dimensions_read(ctx, d, place_of(scales, d.address, 0) is Some)
    })
}

/// Whether naming the axes of a group and of those below it reads anything.
pub open spec fn group_reads(ctx: CtxView, g: GroupIndex, scales: Seq<DimensionScaleView>) -> bool
    decreases g,
{
    axes_read(ctx, g.datasets@, scales, g.datasets@.len() as int) || groups_read(
        ctx,
        g.groups@,
        scales,
    )
}

/// Whether naming the axes of groups reads anything.
pub open spec fn groups_read(
    ctx: CtxView,
    gs: Seq<GroupIndex>,
    scales: Seq<DimensionScaleView>,
) -> bool
    decreases gs,
{
    gs.len() > 0 && (groups_read(ctx, gs.drop_last(), scales) || group_reads(
        ctx,
        gs.last(),
        scales,
    ))
}

pub(crate) proof fn lemma_axes_read(
    ctx: CtxView,
    datasets: Seq<DatasetIndex>,
    scales: Seq<DimensionScaleView>,
    m: int,
    n: int,
)
    requires
        m <= n,
        axes_read(ctx, datasets, scales, m),
    ensures
        axes_read(ctx, datasets, scales, n),
    decreases n,
{
    if m < n && n > 0 {
        lemma_axes_read(ctx, datasets, scales, m, n - 1);
    }
}

pub(crate) proof fn lemma_groups_read(
    ctx: CtxView,
    gs: Seq<GroupIndex>,
    scales: Seq<DimensionScaleView>,
    m: int,
)
    requires
        0 <= m <= gs.len(),
        groups_read(ctx, gs.take(m), scales),
    ensures
        groups_read(ctx, gs, scales),
    decreases gs.len() - m,
{
    if m < gs.len() {
        assert(gs.take(m + 1).drop_last() =~= gs.take(m));
        lemma_groups_read(ctx, gs, scales, m + 1);
    } else {
        assert(gs.take(m) =~= gs);
    }
}

/// The variable is the one wanted, up to attributes that could not be read. It shows
/// the dataset `d`.
pub open spec fn variable_agrees(
    ctx: CtxView,
    got: NcVariableView,
    want: NcVariableView,
    d: DatasetIndex,
    dependable: bool,
) -> bool {
    &&& got.name == want.name
    &&& got.path == want.path
    &&& got.dimensions == want.dimensions
    &&& got.shape == want.shape
    &&& got.attributes_complete == want.attributes_complete
    &&& got.is_coordinate == want.is_coordinate
    &&& attributes_agree(
        ctx,
        got.attributes,
        want.attributes,
        shown_attributes(d.attributes@, d.attributes@.len() as int),
        dependable,
    )
}

/// The variables are those wanted, up to attributes that could not be read. They
/// show `datasets`, one by one.
pub open spec fn variables_agree(
    ctx: CtxView,
    got: Seq<NcVariableView>,
    want: Seq<NcVariableView>,
    datasets: Seq<DatasetIndex>,
    dependable: bool,
) -> bool {
    got.len() == want.len() == datasets.len() && forall|i: int|
        0 <= i < got.len() ==> variable_agrees(
            ctx,
            #[trigger] got[i],
            want[i],
            datasets[i],
            dependable,
        )
}

/// The group is the one wanted, up to attributes that could not be read. It shows
/// the HDF5 group `of`.
pub open spec fn group_agrees(
    ctx: CtxView,
    got: NcGroupView,
    want: NcGroupView,
    of: GroupIndex,
    scales: Seq<DimensionScaleView>,
    dependable: bool,
) -> bool
    decreases got,
{
    &&& got.name == want.name
    &&& got.path == want.path
    &&& got.dimensions == want.dimensions
    &&& variables_agree(
        ctx,
        got.variables,
        want.variables,
        shown_among(of.datasets@, scales, of.datasets@.len() as int),
        dependable,
    )
    &&& attributes_agree(
        ctx,
        got.attributes,
        want.attributes,
        shown_attributes(of.attributes@, of.attributes@.len() as int),
        dependable,
    )
    &&& got.groups.len() == want.groups.len() == of.groups@.len()
    &&& forall|i: int|
        0 <= i < got.groups.len() ==> group_agrees(
            ctx,
            #[trigger] got.groups[i],
            want.groups[i],
            of.groups@[i],
            scales,
            dependable,
        )
}

/// Over storage that does not fail, what is read is exactly what the file says.
pub proof fn dependable_storage_gives_the_group_exactly(
    ctx: CtxView,
    got: NcGroupView,
    want: NcGroupView,
    of: GroupIndex,
    scales: Seq<DimensionScaleView>,
)
    requires
        group_agrees(ctx, got, want, of, scales, true),
    ensures
        got == want,
    decreases got,
{
    assert(got.attributes =~= want.attributes);
    let ds = shown_among(of.datasets@, scales, of.datasets@.len() as int);
    assert forall|i: int| 0 <= i < got.variables.len() implies got.variables[i]
        == want.variables[i] by {
        assert(variable_agrees(ctx, got.variables[i], want.variables[i], ds[i], true));
        assert(got.variables[i].attributes =~= want.variables[i].attributes);
    }
    assert(got.variables =~= want.variables);
    assert forall|i: int| 0 <= i < got.groups.len() implies got.groups[i] == want.groups[i] by {
        assert(decreases_to!(got => got.groups));
        assert(decreases_to!(got.groups => got.groups[i]));
        dependable_storage_gives_the_group_exactly(
            ctx,
            got.groups[i],
            want.groups[i],
            of.groups@[i],
            scales,
        );
    }
    assert(got.groups =~= want.groups);
}

/// Turn one HDF5 dataset into a netCDF variable.
fn build_variable<S: ByteSource + ?Sized>(
    ctx: Ctx<'_, S>,
    dataset: &DatasetIndex,
    scales: &Vec<DimensionScale>,
    heaps: &mut HeapCache,
    is_coordinate: bool,
) -> (r: Result<NcVariable>)
    requires
        old(heaps).faithful(ctx@),
    ensures
        final(heaps).faithful(ctx@),
        match r {
            Ok(v) => variable_of(ctx@, *dataset, views(scales@), is_coordinate) is Ok
                && variable_agrees(
                ctx@,
                v@,
                variable_of(ctx@, *dataset, views(scales@), is_coordinate)->Ok_0,
                *dataset,
                ctx.dependable(),
            ),
            Err(e) => agrees(
                Err(e@),
                variable_of(ctx@, *dataset, views(scales@), is_coordinate),
                ctx.dependable() || !dimensions_read(ctx@, *dataset, is_coordinate),
            ),
        },
{
    let dimensions = resolve_dimensions(ctx, dataset, scales, heaps, is_coordinate)?;
    Ok(
        NcVariable {
            name: dataset.name.clone(),
            path: dataset.path.clone(),
            dimensions,
            shape: slice_to_vec(dataset.shape.as_slice()),
            attributes: visible_attributes(ctx, dataset.path.as_str(), &dataset.attributes),
            attributes_complete: dataset.attributes_complete,
            is_coordinate,
        },
    )
}

/// Turn one HDF5 group into a netCDF group.
pub fn build_group<S: ByteSource + ?Sized>(
    ctx: Ctx<'_, S>,
    group: &GroupIndex,
    scales: &Vec<DimensionScale>,
    heaps: &mut HeapCache,
) -> (r: Result<NcGroup>)
    requires
        old(heaps).faithful(ctx@),
    ensures
        final(heaps).faithful(ctx@),
        match r {
            Ok(g) => group_of(ctx@, *group, views(scales@)) is Ok && group_agrees(
                ctx@,
                g@,
                group_of(ctx@, *group, views(scales@))->Ok_0,
                *group,
                views(scales@),
                ctx.dependable(),
            ),
            Err(e) => agrees(
                Err(e@),
                group_of(ctx@, *group, views(scales@)),
                ctx.dependable() || !group_reads(ctx@, *group, views(scales@)),
            ),
        },
    decreases *group,
{
    let mut dimensions: Vec<NcDimension> = Vec::new();
    let mut variables: Vec<NcVariable> = Vec::new();
    let ghost sv = views(scales@);
    let ghost want = group_of(ctx@, *group, sv);
    let ghost total = group.datasets@.len() as int;
    let mut n: usize = 0;
    while n < group.datasets.len()
        invariant
            n <= group.datasets@.len() == total,
            sv == views(scales@),
            want == group_of(ctx@, *group, sv),
            heaps.faithful(ctx@),
            views(dimensions@) == sorted_dimensions(
                dimensions_among(group.datasets@, sv, n as int),
            ),
            variables_among(ctx@, group.datasets@, sv, n as int) is Ok,
            variables_agree(
                ctx@,
                views(variables@),
                variables_among(ctx@, group.datasets@, sv, n as int)->Ok_0,
                shown_among(group.datasets@, sv, n as int),
                ctx.dependable(),
            ),
        decreases group.datasets@.len() - n,
    {
        let dataset = &group.datasets[n];
        let ghost next = variables_among(ctx@, group.datasets@, sv, n + 1);
        let place: Option<usize> = find_scale(scales, dataset.address);
        let mut is_variable: bool = true;
        if let Some(i) = place {
            let scale = &scales[i];
            let d = NcDimension {
                name: scale.name.clone(),
                len: scale.len,
                is_unlimited: scale.is_unlimited,
                id: scale.id,
                has_coordinate_variable: scale.is_variable,
                is_phony: false,
            };
            proof {
                let before = dimensions_among(group.datasets@, sv, n as int);
                assert(before.push(d@).drop_last() =~= before);
                assert(d@ == dimension_of(sv[i as int]));
            }
            // netCDF reports dimensions in id order where ids exist.
            insert_dimension(&mut dimensions, d);
            // A dimension with no coordinate variable is not a netCDF variable.
            is_variable = scale.is_variable;
        }
        if is_variable {
            match build_variable(ctx, dataset, scales, heaps, place.is_some()) {
                Ok(v) => {
                    let ghost before = views(variables@);
                    variables.push(v);
                    assert(views(variables@) =~= before.push(v@));
                },
                Err(e) => {
                    proof {
                        lemma_variables_stop(ctx@, group.datasets@, sv, n + 1, total);
                        if axes_read(ctx@, group.datasets@, sv, n + 1) {
                            lemma_axes_read(ctx@, group.datasets@, sv, n + 1, total);
                        }
                    }
                    return Err(e);
                },
            }
        }
        n = n + 1;
    }
    let mut groups: Vec<NcGroup> = Vec::new();
    let mut k: usize = 0;
    let ghost gs = group.groups@;
    assert(gs.take(0) =~= Seq::<GroupIndex>::empty());
    while k < group.groups.len()
        invariant
            k <= gs.len(),
            gs == group.groups@,
            sv == views(scales@),
            want == group_of(ctx@, *group, sv),
            total == group.datasets@.len(),
            variables_among(ctx@, group.datasets@, sv, total) is Ok,
            heaps.faithful(ctx@),
            groups_of(ctx@, gs.take(k as int), sv) is Ok,
            groups@.len() == k == groups_of(ctx@, gs.take(k as int), sv)->Ok_0.len(),
            forall|i: int|
                0 <= i < k ==> group_agrees(
                    ctx@,
                    (#[trigger] groups@[i])@,
                    groups_of(ctx@, gs.take(k as int), sv)->Ok_0[i],
                    gs[i],
                    sv,
                    ctx.dependable(),
                ),
        decreases gs.len() - k,
    {
        proof {
            assert(decreases_to!(*group => group.groups));
            assert(decreases_to!(group.groups => group.groups@));
            assert(decreases_to!(group.groups@ => group.groups@[k as int]));
            assert(gs.take(k + 1).drop_last() =~= gs.take(k as int));
            assert(gs.take(k + 1).last() == gs[k as int]);
        }
        match build_group(ctx, &group.groups[k], scales, heaps) {
            Ok(g) => {
                groups.push(g);
            },
            Err(e) => {
                proof {
                    lemma_groups_stop(ctx@, gs, sv, k + 1);
                    if groups_read(ctx@, gs.take(k + 1), sv) {
                        lemma_groups_read(ctx@, gs, sv, k + 1);
                    }
                }
                return Err(e);
            },
        }
        k = k + 1;
    }
    assert(gs.take(k as int) =~= gs);
    let out = NcGroup {
        name: group.name.clone(),
        path: group.path.clone(),
        dimensions,
        variables,
        attributes: visible_attributes(ctx, group.path.as_str(), &group.attributes),
        groups,
    };
    proof {
        let w = want->Ok_0;
        let got = out@;
        assert forall|i: int| 0 <= i < got.groups.len() implies group_agrees(
            ctx@,
            #[trigger] got.groups[i],
            w.groups[i],
            group.groups@[i],
            sv,
            ctx.dependable(),
        ) by {
            assert(got.groups[i] == groups@[i]@);
        }
    }
    Ok(out)
}

/// A dataset that fails makes the whole list fail in the same way.
proof fn lemma_variables_stop(
    ctx: CtxView,
    datasets: Seq<DatasetIndex>,
    scales: Seq<DimensionScaleView>,
    m: int,
    n: int,
)
    requires
        0 <= m <= n,
    ensures
        variables_among(ctx, datasets, scales, m) matches Err(e) ==> variables_among(
            ctx,
            datasets,
            scales,
            n,
        ) == variables_among(ctx, datasets, scales, m),
    decreases n,
{
    if m < n {
        lemma_variables_stop(ctx, datasets, scales, m, n - 1);
    }
}

/// A group that fails makes the whole list fail in the same way.
proof fn lemma_groups_stop(
    ctx: CtxView,
    gs: Seq<GroupIndex>,
    scales: Seq<DimensionScaleView>,
    m: int,
)
    requires
        0 <= m <= gs.len(),
    ensures
        groups_of(ctx, gs.take(m), scales) is Err ==> groups_of(ctx, gs, scales) == groups_of(
            ctx,
            gs.take(m),
            scales,
        ),
    decreases gs.len() - m,
{
    if m < gs.len() {
        lemma_groups_stop(ctx, gs, scales, m + 1);
        assert(gs.take(m + 1).drop_last() =~= gs.take(m));
    } else {
        assert(gs.take(m) =~= gs);
    }
}

// ── what the conventions promise ───────────────────────────────────────────

proof fn lemma_axis_names(
    ctx: CtxView,
    data: Seq<u8>,
    scales: Seq<DimensionScaleView>,
    rank: nat,
    out: Seq<Seq<char>>,
)
    requires
        out.len() <= rank,
    ensures
        axis_names(ctx, data, scales, rank, out) matches Ok(Some(names)) ==> names.len() == rank,
    decreases rank - out.len(),
{
    reveal_with_fuel(axis_names, 2);
    if out.len() < rank {
        assert forall|i: int| true implies (axis_names(
            ctx,
            data,
            scales,
            rank,
            #[trigger] out.push(scales[i].name),
        ) matches Ok(Some(names)) ==> names.len() == rank) by {
            lemma_axis_names(ctx, data, scales, rank, out.push(scales[i].name));
        }
    }
}

proof fn lemma_names_by_id(scales: Seq<DimensionScaleView>, ids: Seq<i64>, out: Seq<Seq<char>>)
    requires
        out.len() <= ids.len(),
    ensures
        names_by_id(scales, ids, out) matches Some(names) ==> names.len() == ids.len(),
    decreases ids.len() - out.len(),
{
    if out.len() < ids.len() {
        match place_of_id(scales, ids[out.len() as int], 0) {
            Some(i) => {
                lemma_names_by_id(scales, ids, out.push(scales[i].name));
            },
            None => {},
        }
    }
}

/// Every axis of a variable gets a name.
pub proof fn every_axis_gets_a_name(
    ctx: CtxView,
    d: DatasetIndex,
    scales: Seq<DimensionScaleView>,
    is_coordinate: bool,
)
    ensures
        dimensions_of(ctx, d, scales, is_coordinate) matches Ok(names) ==> names.len()
            == d.shape@.len(),
{
    let rank = d.shape@.len();
    match lookup(d.attributes@, "DIMENSION_LIST"@) {
        Some(a) => {
            lemma_axis_names(ctx, a.data@, scales, rank, Seq::empty());
        },
        None => {},
    }
    match lookup(d.attributes@, "_Netcdf4Coordinates"@) {
        Some(a) => match ints_of(a.datatype@, a.data@) {
            Ok(ids) => {
                lemma_names_by_id(scales, ids, Seq::empty());
            },
            Err(_) => {},
        },
        None => {},
    }
}

/// A file without dimension scales has no dimensions, and each of its datasets
/// is a variable.
pub proof fn without_scales_every_dataset_is_a_variable(
    ctx: CtxView,
    datasets: Seq<DatasetIndex>,
    n: int,
)
    requires
        0 <= n <= datasets.len(),
    ensures
        dimensions_among(datasets, Seq::empty(), n).len() == 0,
        variables_among(ctx, datasets, Seq::empty(), n) matches Ok(vs) ==> vs.len() == n,
    decreases n,
{
    if n > 0 {
        without_scales_every_dataset_is_a_variable(ctx, datasets, n - 1);
    }
}

// ── an open file ───────────────────────────────────────────────────────────

/// Which container holds the file.
///
/// netCDF-4 sits in an HDF5 container. netCDF classic has its own. The
/// interface above this is the same either way.
pub enum Backend<S: ByteSource + ?Sized> {
    /// netCDF-4.
    Hdf5(Hdf5File<S>),
    /// netCDF classic.
    Classic(ClassicFile<S>),
}

/// An open netCDF file.
///
/// The file may be netCDF-4 or netCDF classic. Every method below behaves the
/// same either way.
pub struct NetcdfFile<S: ByteSource + ?Sized> {
    /// The container behind the file.
    pub backend: Backend<S>,
    /// The root group.
    pub root: NcGroup,
}

/// Whether a variable of that name stands among `vs`.
pub open spec fn has_variable(vs: Seq<ClassicVariableView>, name: Seq<char>) -> bool {
    exists|i: int| 0 <= i < vs.len() && (#[trigger] vs[i]).name == name
}

/// A dimension of a classic file as a netCDF dimension. Classic files list
/// dimensions in order and store no id.
pub open spec fn classic_dimension(d: ClassicDimensionView, vs: Seq<ClassicVariableView>) -> NcDimensionView {
    NcDimensionView {
        name: d.name,
        len: d.len,
        is_unlimited: d.is_unlimited,
        id: None,
        has_coordinate_variable: has_variable(vs, d.name),
        is_phony: false,
    }
}

/// A variable of a classic file as a netCDF variable. The classic header lists
/// every attribute, so nothing is lost.
pub open spec fn classic_variable(v: ClassicVariableView) -> NcVariableView {
    NcVariableView {
        name: v.name,
        path: "/"@ + v.name,
        dimensions: v.dimensions,
        shape: v.shape,
        attributes: classic_values(v.attributes),
        attributes_complete: true,
        is_coordinate: v.dimensions.len() == 1 && v.dimensions[0] == v.name,
    }
}

/// A classic file as a netCDF group. A classic file is flat: it has one group
/// and no nested groups.
pub open spec fn classic_root(h: HeaderView) -> NcGroupView {
    NcGroupView {
        name: Seq::empty(),
        path: "/"@,
        dimensions: Seq::new(
            h.dimensions.len(),
            |i: int| classic_dimension(h.dimensions[i], h.variables),
        ),
        variables: Seq::new(h.variables.len(), |i: int| classic_variable(h.variables[i])),
        attributes: classic_values(h.attributes),
        groups: Seq::empty(),
    }
}

pub(crate) fn copy_texts(texts: &Vec<String>) -> (r: Vec<String>)
    ensures
        views(r@) == views(texts@),
{
    let mut out: Vec<String> = Vec::new();
    while out.len() < texts.len()
        invariant
            out@.len() <= texts@.len(),
            views(out@) == views(texts@).take(out@.len() as int),
        decreases texts@.len() - out@.len(),
    {
        out.push(texts[out.len()].clone());
        assert(views(out@) =~= views(texts@).take(out@.len() as int));
    }
    assert(views(out@) =~= views(texts@));
    out
}

fn is_variable_name(variables: &Vec<ClassicVariable>, name: &String) -> (r: bool)
    ensures
        r == has_variable(views(variables@), name@),
{
    let ghost vs = views(variables@);
    let mut i: usize = 0;
    while i < variables.len()
        invariant
            i <= variables@.len(),
            vs == views(variables@),
            forall|j: int| 0 <= j < i ==> (#[trigger] vs[j]).name != name@,
        decreases variables@.len() - i,
    {
        if variables[i].name == *name {
            assert(vs[i as int].name == name@);
            return true;
        }
        i = i + 1;
    }
    false
}

fn classic_dimensions<S: ByteSource + ?Sized>(classic: &ClassicFile<S>) -> (r: Vec<NcDimension>)
    ensures
        views(r@) == classic_root(classic.header()).dimensions,
{
    let ghost want = classic_root(classic.header()).dimensions;
    let mut out: Vec<NcDimension> = Vec::new();
    while out.len() < classic.dimensions.len()
        invariant
            want == classic_root(classic.header()).dimensions,
            out@.len() <= classic.dimensions@.len(),
            views(out@) == want.take(out@.len() as int),
        decreases classic.dimensions@.len() - out@.len(),
    {
        let d = &classic.dimensions[out.len()];
        out.push(
            NcDimension {
                name: d.name.clone(),
                len: d.len,
                is_unlimited: d.is_unlimited,
                // Classic files list dimensions in order and store no id.
                id: None,
                has_coordinate_variable: is_variable_name(&classic.variables, &d.name),
                is_phony: false,
            },
        );
        assert(views(out@) =~= want.take(out@.len() as int));
    }
    assert(views(out@) =~= want);
    out
}

fn classic_variables<S: ByteSource + ?Sized>(classic: &ClassicFile<S>) -> (r: Vec<NcVariable>)
    ensures
        views(r@) == classic_root(classic.header()).variables,
{
    let ghost want = classic_root(classic.header()).variables;
    let mut out: Vec<NcVariable> = Vec::new();
    while out.len() < classic.variables.len()
        invariant
            want == classic_root(classic.header()).variables,
            out@.len() <= classic.variables@.len(),
            views(out@) == want.take(out@.len() as int),
        decreases classic.variables@.len() - out@.len(),
    {
        let v = &classic.variables[out.len()];
        proof {
            assert(v.dimensions@.len() == 1 ==> views(v.dimensions@)[0] == v.dimensions@[0]@);
        }
        out.push(
            NcVariable {
                name: v.name.clone(),
                path: joined("/", v.name.as_str()),
                dimensions: copy_texts(&v.dimensions),
                shape: slice_to_vec(v.shape.as_slice()),
                attributes: classic_attributes(&v.attributes),
                // The classic header lists every attribute, so nothing is lost.
                attributes_complete: true,
                is_coordinate: v.dimensions.len() == 1 && v.dimensions[0] == v.name,
            },
        );
        assert(views(out@) =~= want.take(out@.len() as int));
    }
    assert(views(out@) =~= want);
    out
}

impl<S: ByteSource + ?Sized> NetcdfFile<S> {
    /// Interpret an already-open HDF5 file as netCDF-4.
    pub fn from_hdf5(hdf5: Hdf5File<S>) -> (r: Result<Self>)
        ensures
            ({
                let root = match r {
                    Ok(f) => Ok(f.root@),
                    Err(e) => Err(e@),
                };
                &&& root_agrees(hdf5.context(), hdf5.root, root, hdf5.source.dependable())
                &&& r matches Ok(f) ==> f.backend == Backend::Hdf5(hdf5)
            }),
    {
        let root = build_root(&hdf5)?;
        Ok(NetcdfFile { backend: Backend::Hdf5(hdf5), root })
    }

    /// Interpret an already-open classic file through the netCDF conventions.
    ///
    /// A classic file is flat. It has one group and no nested groups.
    pub fn from_classic(classic: ClassicFile<S>) -> (r: Result<Self>)
        ensures
            r matches Ok(f) && f.backend == Backend::Classic(classic) && f.root@ == classic_root(
                classic.header(),
            ),
    {
        let root = NcGroup {
            name: String::new(),
            path: String::from_str("/"),
            dimensions: classic_dimensions(&classic),
            variables: classic_variables(&classic),
            attributes: classic_attributes(&classic.attributes),
            groups: Vec::new(),
        };
        assert(root@.groups =~= Seq::<NcGroupView>::empty());
        assert(root@ =~= classic_root(classic.header()));
        Ok(NetcdfFile { root, backend: Backend::Classic(classic) })
    }

    /// The classic file behind this one, when the container is classic.
    pub fn classic(&self) -> (r: Option<&ClassicFile<S>>)
        ensures
            r == match self.backend {
                Backend::Classic(c) => Some(&c),
                Backend::Hdf5(_) => None,
            },
    {
        match &self.backend {
            Backend::Classic(c) => Some(c),
            Backend::Hdf5(_) => None,
        }
    }

    /// Which container holds the file.
    pub fn container(&self) -> (r: Container)
        ensures
            r == match self.backend {
                Backend::Hdf5(_) => Container::Hdf5,
                Backend::Classic(c) => c.container,
            },
    {
        match &self.backend {
            Backend::Hdf5(_) => Container::Hdf5,
            Backend::Classic(c) => c.container,
        }
    }

    /// The root group.
    pub fn root(&self) -> (r: &NcGroup)
        ensures
            *r == self.root,
    {
        &self.root
    }

    /// The HDF5 file behind this one, when the container is HDF5.
    ///
    /// `None` for a classic file, which has no HDF5 layer.
    pub fn hdf5(&self) -> (r: Option<&Hdf5File<S>>)
        ensures
            r == match self.backend {
                Backend::Hdf5(h) => Some(&h),
                Backend::Classic(_) => None,
            },
    {
        match &self.backend {
            Backend::Hdf5(h) => Some(h),
            Backend::Classic(_) => None,
        }
    }

    /// Replace the underlying HDF5 file, keeping the netCDF view.
    ///
    /// The netCDF view describes names, shapes and axes. None of those depend
    /// on how bytes arrive. A classic file passes through unchanged.
    pub fn map_hdf5<F: FnOnce(Hdf5File<S>) -> Hdf5File<S>>(self, f: F) -> (r: Self)
        requires
            self.backend matches Backend::Hdf5(h) ==> call_requires(f, (h,)),
        ensures
            r.root == self.root,
            match (self.backend, r.backend) {
                (Backend::Hdf5(h), Backend::Hdf5(k)) => call_ensures(f, (h,), k),
                (Backend::Classic(c), Backend::Classic(d)) => c == d,
                _ => false,
            },
    {
        let root = self.root;
        match self.backend {
            Backend::Hdf5(h) => NetcdfFile { backend: Backend::Hdf5(f(h)), root },
            Backend::Classic(c) => NetcdfFile { backend: Backend::Classic(c), root },
        }
    }

    /// The HDF5 dataset behind a variable, for the storage this layer does not
    /// model. `None` for a classic file.
    pub fn dataset(&self, variable: &NcVariable) -> (r: Option<&DatasetIndex>)
        ensures
            r == match self.backend {
                Backend::Hdf5(h) => dataset_at(datasets_of(h.root), variable.path@, 0),
                Backend::Classic(_) => None,
            },
    {
        match &self.backend {
            Backend::Hdf5(h) => h.dataset(variable.path.as_str()),
            Backend::Classic(_) => None,
        }
    }

    /// The metadata of a variable by absolute path.
    pub fn variable_info(&self, path: &str) -> (r: Option<&NcVariable>)
        ensures
            r == variable_at(self.root, path@),
    {
        self.root.variable_info(path)
    }

    /// The file's global attributes, which are the root group's attributes.
    pub fn attributes(&self) -> (r: &[NcAttribute])
        ensures
            r@ == self.root.attributes@,
    {
        self.root.attributes.as_slice()
    }

    /// A global attribute by name.
    pub fn attribute(&self, name: &str) -> (r: Option<&NcAttribute>)
        ensures
            r == lookup(self.root.attributes@, name@),
    {
        self.root.attribute(name)
    }

    /// The dimensions defined in the root group.
    pub fn dimensions(&self) -> (r: &[NcDimension])
        ensures
            r@ == self.root.dimensions@,
    {
        self.root.dimensions.as_slice()
    }

    /// One dimension of the root group by name.
    pub fn dimension(&self, name: &str) -> (r: Option<&NcDimension>)
        ensures
            r == lookup(self.root.dimensions@, name@),
    {
        self.root.dimension(name)
    }

    /// The length of one dimension of the root group.
    pub fn dimension_len(&self, name: &str) -> (r: Option<u64>)
        ensures
            r == match lookup(self.root.dimensions@, name@) {
                Some(d) => Some(d.len),
                None => None,
            },
    {
        match self.dimension(name) {
            Some(d) => Some(d.len),
            None => None,
        }
    }

    /// The groups directly inside the root group.
    pub fn groups(&self) -> (r: &[NcGroup])
        ensures
            r@ == self.root.groups@,
    {
        self.root.groups.as_slice()
    }

    /// A group by absolute path, such as `/` or `/processing`.
    pub fn group(&self, path: &str) -> (r: Option<&NcGroup>)
        ensures
            r == group_at(self.root, path@),
    {
        self.root.group(path)
    }
}

/// What opening an HDF5 container comes to, given what indexing it gives.
pub open spec fn opened_hdf5<S: ByteSource + ?Sized>(
    indexed: Result<Hdf5File<S>>,
    r: Result<NetcdfFile<S>>,
) -> bool {
    match indexed {
        Err(e) => r is Err && r->Err_0 == e,
        Ok(h) => {
            let root = match r {
                Ok(f) => Ok(f.root@),
                Err(x) => Err(x@),
            };
            &&& root_agrees(h.context(), h.root, root, h.source.dependable())
            &&& r matches Ok(f) ==> f.backend == Backend::Hdf5(h)
        },
    }
}

/// What opening a classic container comes to.
pub open spec fn opened_classic<S: ByteSource + ?Sized>(
    source: Arc<S>,
    r: Result<NetcdfFile<S>>,
) -> bool {
    match r {
        Err(x) => agrees(Err(x@), classic_of(source.image()), source.dependable()),
        Ok(f) => {
            let c = f.backend->Classic_0;
            &&& f.backend is Classic
            &&& c.source == source
            &&& classic_of(source.image()) == Ok::<_, ErrorView>((c.container, c.header()))
            &&& f.root@ == classic_root(c.header())
        },
    }
}

impl<S: ByteSource + ?Sized> NetcdfFile<S> {
    /// Open a netCDF file over any byte source.
    ///
    /// This reads the magic bytes. A netCDF-4 file goes through `index`, which
    /// finds the groups and datasets of an HDF5 container. A classic file goes
    /// through the classic parser. The result is the same type.
    pub fn from_source<F: FnOnce(Arc<S>) -> Result<Hdf5File<S>>>(source: Arc<S>, index: F) -> (r:
        Result<Self>)
        requires
            call_requires(index, (source,)),
        ensures
            match container_of(source.image().bytes) {
                Err(e) => r is Err && agrees(
                    Err::<Container, _>(r->Err_0@),
                    Err(e),
                    source.dependable() || source.image().bytes.len() < 8,
                ),
                Ok(Container::Hdf5) => (exists|indexed: Result<Hdf5File<S>>| #[trigger]
                    call_ensures(index, (source,), indexed) && opened_hdf5(indexed, r)) || (
                !source.dependable() && r is Err && r->Err_0@.is_storage_failure()),
                Ok(_) => opened_classic(source, r),
            },
    {
        match detect_container(&*source)? {
            Container::Hdf5 => {
                let indexed = index(source);
                assert(call_ensures(index, (source,), indexed));
                match indexed {
                    Err(e) => Err(e),
                    Ok(hdf5) => Self::from_hdf5(hdf5),
                }
            },
            // The classic parser reads the whole header at open.
            _ => Self::from_classic(ClassicFile::from_source(source)?),
        }
    }
}

} // verus!
