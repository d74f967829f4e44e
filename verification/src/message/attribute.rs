//! Attributes: a small named value attached to a dataset or a group.

use vstd::prelude::*;

use crate::message::dataspace::Dataspace;
#[allow(unused_imports)]
use crate::message::dataspace::DataspaceView;
use crate::message::datatype::Datatype;
#[allow(unused_imports)]
use crate::message::datatype::DatatypeView;
use crate::names::Named;

verus! {

/// One attribute, with its values as stored.
#[derive(Debug)]
pub struct Attribute {
    /// Attribute name.
    pub name: String,
    /// Element type.
    pub datatype: Datatype,
    /// Shape of the value.
    pub dataspace: Dataspace,
    /// The values as stored.
    pub data: Vec<u8>,
}

/// What an [`Attribute`] says.
pub struct AttributeView {
    pub name: Seq<char>,
    pub datatype: DatatypeView,
    pub dataspace: DataspaceView,
    pub data: Seq<u8>,
}

impl View for Attribute {
    type V = AttributeView;

    open spec fn view(&self) -> AttributeView {
        AttributeView {
            name: self.name@,
            datatype: self.datatype@,
            dataspace: self.dataspace@,
            data: self.data@,
        }
    }
}

impl Named for Attribute {
    open spec fn called(&self) -> Seq<char> {
        self.name@
    }

    fn name(&self) -> (r: &String) {
        &self.name
    }
}

impl Attribute {
    /// Total number of values.
    pub fn element_count(&self) -> (r: u64)
        requires
            self@.dataspace.count() <= u64::MAX,
        ensures
            r == self@.dataspace.count(),
    {
        self.dataspace.element_count()
    }
}

} // verus!
