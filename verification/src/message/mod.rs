//! The bodies of object header messages.

pub mod attribute;
pub mod committed;
pub mod dataspace;
pub mod datatype;
pub mod fillvalue;
pub mod filter;
pub mod layout;
pub mod shared;
