//! Registered filter identifiers.

use vstd::prelude::*;

verus! {

/// zlib's deflate.
pub const DEFLATE: u16 = 1;
/// The byte shuffle.
pub const SHUFFLE: u16 = 2;
/// The Fletcher-32 checksum.
pub const FLETCHER32: u16 = 3;
/// Szip compression.
pub const SZIP: u16 = 4;
/// The Blosc container.
pub const BLOSC: u16 = 32001;
/// Zstandard.
pub const ZSTD: u16 = 32015;

} // verus!
