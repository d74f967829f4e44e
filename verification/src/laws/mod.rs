//! What holds of the library as a whole.
//!
//! Most of these laws tie a reader to a writer: what is written down as the format
//! asks for it reads back as what was written. The others say how two results are
//! related.
//!
//! * [`writing`] writes numbers and fields.
//! * [`arrays`] says where the elements of an array stand, and [`selections`] which of
//!   them a selection takes.
//! * [`superblocks`], [`headers`] and [`messages`] read the metadata of a file back.
//! * [`datatypes`] and [`nested`] read datatypes back, byte by byte, and [`types`] says
//!   what they are called.
//! * [`trees`], [`records`] and [`indices`] find every chunk, [`chunks`] lists those of a
//!   dataset, and [`heaps`] finds every object.
//! * [`filters`] undoes the filters of a chunk, and [`blosc`] a Blosc container;
//!   [`checksums`] says how a checksum grows.
//! * [`storage`] says which byte a read hands out, [`numbers`], [`rounding`] and [`texts`]
//!   which value.
//! * [`classic`] reads classic files back, and places their records.
//! * [`naming`] says what variables, dimensions and attributes are called, and
//!   [`invented`] which dimensions are made up.

pub mod arrays;
pub mod blosc;
pub mod checksums;
pub mod chunks;
pub mod classic;
pub mod datatypes;
pub mod filters;
pub mod headers;
pub mod heaps;
pub mod indices;
pub mod invented;
pub mod messages;
pub mod naming;
pub mod nested;
pub mod numbers;
pub mod records;
pub mod rounding;
pub mod selections;
pub mod storage;
pub mod superblocks;
pub mod texts;
pub mod trees;
pub mod types;
pub mod writing;
