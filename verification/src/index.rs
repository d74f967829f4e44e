//! The tree of an HDF5 file: its groups and datasets, with their metadata.
//!
//! The tree is immutable once it is built, so reads over it need no lock.

use std::sync::Arc;

use vstd::prelude::*;

use crate::context::Ctx;
#[allow(unused_imports)]
use crate::context::CtxView;
use crate::filters::pipeline_is_supported;
#[allow(unused_imports)]
use crate::filters::supported;
use crate::message::attribute::Attribute;
use crate::message::datatype::Datatype;
#[allow(unused_imports)]
use crate::message::datatype::decodable;
use crate::message::fillvalue::FillValue;
use crate::message::filter::FilterPipeline;
use crate::message::layout::Layout;
use crate::names::find_named;
#[allow(unused_imports)]
use crate::names::lookup;
use crate::shape::checked_product;
#[allow(unused_imports)]
use crate::shape::product;
use crate::source::ByteSource;
use crate::superblock::Superblock;

verus! {

/// One dataset: everything its object header says.
#[derive(Debug)]
pub struct DatasetIndex {
    /// Dataset name.
    pub name: String,
    /// Full path from the root group.
    pub path: String,
    /// Address of the object header.
    pub address: u64,
    /// Shape in elements.
    pub shape: Vec<u64>,
    /// Maximum shape, when recorded. `u64::MAX` marks an axis that can grow.
    pub max_shape: Option<Vec<u64>>,
    /// Element type.
    pub datatype: Datatype,
    /// Where the values are stored.
    pub layout: Layout,
    /// What each chunk went through when written.
    pub pipeline: FilterPipeline,
    /// What storage that was never written reads as.
    pub fill_value: FillValue,
    /// The dataset's attributes.
    pub attributes: Vec<Attribute>,
    /// Whether every attribute was recovered.
    pub attributes_complete: bool,
}

/// One group.
#[derive(Debug)]
pub struct GroupIndex {
    /// Group name. Empty for the root group.
    pub name: String,
    /// Full path. `/` for the root group.
    pub path: String,
    /// Datasets in this group.
    pub datasets: Vec<DatasetIndex>,
    /// Child groups.
    pub groups: Vec<GroupIndex>,
    /// Group attributes.
    pub attributes: Vec<Attribute>,
}

/// An HDF5 file with its tree.
pub struct Hdf5File<S: ByteSource + ?Sized> {
    /// Where the bytes come from.
    pub source: Arc<S>,
    /// The superblock.
    pub superblock: Superblock,
    /// The root group.
    pub root: GroupIndex,
}

impl DatasetIndex {
    /// An attribute by name.
    pub fn attribute(&self, name: &str) -> (r: Option<&Attribute>)
        ensures
            r == lookup(self.attributes@, name@),
    {
        find_named(&self.attributes, name)
    }

    /// Total number of elements.
    pub fn element_count(&self) -> (r: u64)
        requires
            product(self.shape@) <= u64::MAX,
        ensures
            r == product(self.shape@),
    {
        checked_product(self.shape.as_slice()).unwrap()
    }

    /// Whether this reader can decode the dataset's values.
    pub fn is_readable(&self) -> (r: bool)
        ensures
            r == (decodable(self.datatype@) && forall|i: int|
                0 <= i < self.pipeline@.len() ==> supported(#[trigger] self.pipeline@[i].id)),
    {
        self.datatype.is_decodable() && pipeline_is_supported(&self.pipeline)
    }
}

/// Every dataset at or below a group, depth first.
pub open spec fn datasets_of(g: GroupIndex) -> Seq<DatasetIndex>
    decreases g,
{
    g.datasets@ + datasets_of_all(g.groups@)
}

/// Every dataset at or below any of the groups, depth first.
pub open spec fn datasets_of_all(gs: Seq<GroupIndex>) -> Seq<DatasetIndex>
    decreases gs,
{
    if gs.len() == 0 {
        Seq::empty()
    } else {
        datasets_of_all(gs.drop_last()) + datasets_of(gs.last())
    }
}

/// A list of references holds these items.
pub open spec fn refers_to<T>(refs: Seq<&T>, items: Seq<T>) -> bool {
    refs.len() == items.len() && forall|i: int| 0 <= i < refs.len() ==> *#[trigger] refs[i] == items[i]
}

impl GroupIndex {
    /// An attribute by name.
    pub fn attribute(&self, name: &str) -> (r: Option<&Attribute>)
        ensures
            r == lookup(self.attributes@, name@),
    {
        find_named(&self.attributes, name)
    }

    /// Every dataset at or below this group, depth first.
    pub fn datasets_recursive(&self) -> (r: Vec<&DatasetIndex>)
        ensures
            refers_to(r@, datasets_of(*self)),
        decreases *self,
    {
        let mut out: Vec<&DatasetIndex> = Vec::new();
        let mut i: usize = 0;
        while i < self.datasets.len()
            invariant
                i <= self.datasets@.len(),
                refers_to(out@, self.datasets@.take(i as int)),
            decreases self.datasets@.len() - i,
        {
            out.push(&self.datasets[i]);
            i = i + 1;
        }
        assert(self.datasets@.take(i as int) =~= self.datasets@);
        assert(self.groups@.take(0) =~= Seq::<GroupIndex>::empty());
        let mut i: usize = 0;
        while i < self.groups.len()
            invariant
                i <= self.groups@.len(),
                refers_to(out@, self.datasets@ + datasets_of_all(self.groups@.take(i as int))),
            decreases self.groups@.len() - i,
        {
            proof {
                assert(decreases_to!(*self => self.groups));
                assert(decreases_to!(self.groups => self.groups@));
                assert(decreases_to!(self.groups@ => self.groups@[i as int]));
                assert(self.groups@.take(i + 1).drop_last() =~= self.groups@.take(i as int));
            }
            let mut below = self.groups[i].datasets_recursive();
            out.append(&mut below);
            i = i + 1;
        }
        assert(self.groups@.take(i as int) =~= self.groups@);
        out
    }
}

impl<S: ByteSource + ?Sized> Hdf5File<S> {
    /// A file whose tree is known.
    pub fn new(source: Arc<S>, superblock: Superblock, root: GroupIndex) -> (r: Self)
        ensures
            r.source == source,
            r.superblock == superblock,
            r.root == root,
    {
        Hdf5File { source, superblock, root }
    }

    /// What a read of the file goes by.
    pub open spec fn context(&self) -> CtxView {
        CtxView { image: self.source.image(), superblock: self.superblock }
    }

    /// What a read of the file goes by.
    pub fn ctx(&self) -> (r: Ctx<'_, S>)
        ensures
            r@ == self.context(),
            r.dependable() == self.source.dependable(),
    {
        Ctx::new(&*self.source, &self.superblock)
    }

    /// The superblock.
    pub fn superblock(&self) -> (r: &Superblock)
        ensures
            *r == self.superblock,
    {
        &self.superblock
    }

    /// The root group.
    pub fn root(&self) -> (r: &GroupIndex)
        ensures
            *r == self.root,
    {
        &self.root
    }

    /// Every dataset in the file, depth first.
    pub fn datasets(&self) -> (r: Vec<&DatasetIndex>)
        ensures
            refers_to(r@, datasets_of(self.root)),
    {
        self.root.datasets_recursive()
    }

    /// One dataset by path, such as `/forecast/TEMP`.
    pub fn dataset(&self, path: &str) -> (r: Option<&DatasetIndex>)
        ensures
            r == dataset_at(datasets_of(self.root), path@, 0),
    {
        let all = self.datasets();
        let wanted: String = String::from_str(path);
        let ghost items = datasets_of(self.root);
        let mut i: usize = 0;
        while i < all.len()
            invariant
                i <= all@.len(),
                wanted@ == path@,
                items == datasets_of(self.root),
                refers_to(all@, items),
                dataset_at(items, path@, 0) == dataset_at(items, path@, i as int),
            decreases all@.len() - i,
        {
            if all[i].path == wanted {
                return Some(all[i]);
            }
            i = i + 1;
        }
        None
    }
}

/// The first dataset from `i` on with that path.
pub open spec fn dataset_at<'a>(items: Seq<DatasetIndex>, path: Seq<char>, i: int) -> Option<
    &'a DatasetIndex,
>
    decreases items.len() - i,
{
    if i >= items.len() {
        None
    } else if items[i].path@ == path {
        Some(&items[i])
    } else {
        dataset_at(items, path, i + 1)
    }
}

} // verus!
