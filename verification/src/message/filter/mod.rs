//! The filter pipeline message: what each chunk went through when written.

use vstd::prelude::*;

#[allow(unused_imports)]
use crate::views::views;

pub mod id;

verus! {

/// Filter flag: a writer may skip this filter when it is not available.
pub const FLAG_OPTIONAL: u16 = 0x0001;

/// One filter of a pipeline.
#[derive(Debug, Clone, PartialEq, Eq)]
pub struct Filter {
    /// Registered identifier.
    pub id: u16,
    /// Name, when the file records one.
    pub name: String,
    /// Raw flag bits.
    pub flags: u16,
    /// Parameters of the filter.
    pub client_data: Vec<u32>,
}

/// The filters of a dataset, in the order in which they were applied.
#[derive(Debug, Clone, PartialEq, Eq)]
pub struct FilterPipeline {
    /// The filters, first applied first.
    pub filters: Vec<Filter>,
}

/// What a [`Filter`] says.
#[verifier::ext_equal]
pub struct FilterView {
    pub id: u16,
    pub name: Seq<char>,
    pub flags: u16,
    pub client_data: Seq<u32>,
}

impl View for Filter {
    type V = FilterView;

    open spec fn view(&self) -> FilterView {
        FilterView {
            id: self.id,
            name: self.name@,
            flags: self.flags,
            client_data: self.client_data@,
        }
    }
}

impl View for FilterPipeline {
    type V = Seq<FilterView>;

    open spec fn view(&self) -> Seq<FilterView> {
        views(self.filters@)
    }
}

impl Default for FilterPipeline {
    fn default() -> (r: Self)
        ensures
            r@ == Seq::<FilterView>::empty(),
    {
        broadcast use crate::views::group_views;
        FilterPipeline { filters: Vec::new() }
    }
}

impl FilterPipeline {
    /// Whether there is no filter at all.
    pub fn is_empty(&self) -> (r: bool)
        ensures
            r == (self@.len() == 0),
    {
        broadcast use crate::views::group_views;
        self.filters.len() == 0
    }
}

} // verus!
