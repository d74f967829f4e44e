//! A verified reader for netCDF-4 / HDF5 and netCDF classic files.
//!
//! All input goes through [`source::ByteSource`]. Its methods take `&self` and
//! address bytes by absolute offset, so there is no file position to share and
//! many threads can read one file at the same time.
//!
//! * [`netcdf`] holds the netCDF view: variables, dimensions and attributes.
//! * [`variable`] reads the values of a variable, as any [`element::Element`].
//! * [`extent`] writes a selection, one extent for each axis.
//! * [`classic`] reads the netCDF classic formats.
//! * [`index`] holds the tree of an HDF5 file and [`dataset`] reads from it.
//! * [`superblock`], [`objheader`] and [`message`] parse the HDF5 container.
//! * [`btree1`], [`btree2`], [`heap`] and [`chunk_index`] parse the structures
//!   those messages point at.

pub mod array;
pub mod attributes;
pub mod btree1;
pub mod btree2;
pub mod bytes;
pub mod checksum;
pub mod chunk_index;
pub mod chunks;
pub mod classic;
pub mod container;
pub mod context;
pub mod cursor;
pub mod dataset;
pub mod dtype;
pub mod element;
pub mod error;
pub mod extent;
pub mod filters;
pub mod float;
pub mod heap;
pub mod index;
pub mod laws;
pub mod message;
pub mod names;
pub mod netcdf;
pub mod numbers;
pub mod objheader;
pub mod overlay;
pub mod pages;
pub mod phony;
pub mod ranking;
pub mod read;
mod sealed;
pub mod shape;
pub mod source;
pub mod superblock;
pub mod symbol_table;
pub mod text;
pub mod variable;
pub mod views;

pub use attributes::AttributeValue;
pub use container::{detect_container, Container, CDF_SIGNATURES, HDF5_SIGNATURE};
pub use dtype::DType;
pub use element::Element;
pub use error::{Error, Result};
pub use extent::{Extent, Extents};
pub use float::{F32, F64};
pub use netcdf::{NcAttribute, NcDimension, NcVariable, NetcdfFile};
pub use read::Hyperslab;
pub use source::{ByteSource, MemorySource};
pub use variable::Variable;
