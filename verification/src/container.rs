//! Which container format a file uses.
//!
//! A netCDF file is either an HDF5 container (netCDF-4) or one of the three
//! classic containers. Only the first is HDF5. The others are recognised too,
//! so a caller gets a clear message instead of a confusing parse failure, and
//! so the netCDF layer above can route the file to its classic reader.

use vstd::prelude::*;
use vstd::slice::slice_subrange;

use crate::bytes::same_bytes;
use crate::error::{Error, Result};
#[allow(unused_imports)]
use crate::error::{seen, ErrorView};
use crate::source::ByteSource;
#[allow(unused_imports)]
use crate::source::agrees;

verus! {

/// The 8-byte signature at the front of every HDF5 file.
pub const HDF5_SIGNATURE: [u8; 8] = [0x89, 0x48, 0x44, 0x46, 0x0d, 0x0a, 0x1a, 0x0a];

/// The 4-byte signatures of the netCDF classic formats: classic, 64-bit offset
/// and 64-bit data (CDF-5).
pub const CDF_SIGNATURES: [[u8; 4]; 3] = [
    [0x43, 0x44, 0x46, 0x01],
    [0x43, 0x44, 0x46, 0x02],
    [0x43, 0x44, 0x46, 0x05],
];

/// Which container a file uses.
#[derive(Debug, Clone, Copy, PartialEq, Eq, Structural)]
pub enum Container {
    /// netCDF-4, stored in an HDF5 container.
    Hdf5,
    /// netCDF classic, 32-bit offsets.
    Cdf1,
    /// netCDF classic, 64-bit offsets.
    Cdf2,
    /// netCDF classic, 64-bit data.
    Cdf5,
}

impl View for Container {
    type V = Container;

    open spec fn view(&self) -> Container {
        *self
    }
}

/// Whether the HDF5 signature stands at `p`.
pub open spec fn signature_at(b: Seq<u8>, p: int) -> bool {
    p + 8 <= b.len() && b.subrange(p, p + 8) == HDF5_SIGNATURE@
}

/// The first of `p`, `2p`, `4p`, ... at which the HDF5 signature stands.
pub open spec fn signature_from(b: Seq<u8>, p: int) -> Option<int>
    decreases (if b.len() > p { b.len() - p } else { 0 }),
{
    if p <= 0 || p + 8 > b.len() {
        None
    } else if signature_at(b, p) {
        Some(p)
    } else {
        signature_from(b, 2 * p)
    }
}

/// Where the HDF5 signature stands: at the front, or behind a user block whose
/// size is a power of two of at least 512.
pub open spec fn signature_offset(b: Seq<u8>) -> Option<int> {
    if signature_at(b, 0) {
        Some(0)
    } else {
        signature_from(b, 512)
    }
}

/// Which container the bytes are.
pub open spec fn container_of(b: Seq<u8>) -> std::result::Result<Container, ErrorView> {
    if b.len() >= 8 && signature_at(b, 0) {
        Ok(Container::Hdf5)
    } else if b.len() >= 8 && b.take(4) == CDF_SIGNATURES@[0]@ {
        Ok(Container::Cdf1)
    } else if b.len() >= 8 && b.take(4) == CDF_SIGNATURES@[1]@ {
        Ok(Container::Cdf2)
    } else if b.len() >= 8 && b.take(4) == CDF_SIGNATURES@[2]@ {
        Ok(Container::Cdf5)
    } else if signature_offset(b) is Some {
        Ok(Container::Hdf5)
    } else {
        Err(
            ErrorView::Malformed(
                "file is neither HDF5 (netCDF-4) nor a netCDF classic container"@,
            ),
        )
    }
}

/// Identify the container by its magic bytes.
///
/// HDF5 permits a user block before the signature. The block size is a power of
/// two of at least 512, so probe those offsets too.
pub fn detect_container<S: ByteSource + ?Sized>(source: &S) -> (r: Result<Container>)
    ensures
        agrees(
            seen(r),
            container_of(source.image().bytes),
            source.dependable() || source.image().bytes.len() < 8,
        ),
{
    if source.size() >= 8 {
        let magic = source.read_vec(0, 8)?;
        let four = slice_subrange(magic.as_slice(), 0, 4);
        proof {
            assert(magic@.subrange(0, 4) =~= source.image().bytes.take(4));
        }
        if same_bytes(magic.as_slice(), HDF5_SIGNATURE.as_slice()) {
            return Ok(Container::Hdf5);
        }
        if same_bytes(four, CDF_SIGNATURES[0].as_slice()) {
            return Ok(Container::Cdf1);
        }
        if same_bytes(four, CDF_SIGNATURES[1].as_slice()) {
            return Ok(Container::Cdf2);
        }
        if same_bytes(four, CDF_SIGNATURES[2].as_slice()) {
            return Ok(Container::Cdf5);
        }
    }
    match probe_user_blocks(source)? {
        Some(_) => Ok(Container::Hdf5),
        None => Err(
            Error::malformed("file is neither HDF5 (netCDF-4) nor a netCDF classic container"),
        ),
    }
}

/// Look for the HDF5 signature behind a user block.
pub(crate) fn probe_user_blocks<S: ByteSource + ?Sized>(source: &S) -> (r: Result<Option<u64>>)
    ensures
        agrees(
            match r {
                Ok(Some(p)) => Ok(Some(p as int)),
                Ok(None) => Ok(None),
                Err(e) => Err(e@),
            },
            Ok(signature_from(source.image().bytes, 512)),
            source.dependable() || source.image().bytes.len() < 520,
        ),
{
    let size: u64 = source.size();
    let mut probe: u64 = 512;
    while probe <= size && size - probe >= 8
        invariant
            size == source.image().bytes.len(),
            512 <= probe,
            signature_from(source.image().bytes, 512) == signature_from(
                source.image().bytes,
                probe as int,
            ),
        decreases (if size > probe { size - probe } else { 0 }),
    {
        let magic = source.read_vec(probe, 8)?;
        if same_bytes(magic.as_slice(), HDF5_SIGNATURE.as_slice()) {
            return Ok(Some(probe));
        }
        if probe > 0x7fff_ffff_ffff_ffff {
            assert(signature_from(source.image().bytes, 2 * probe) is None);
            return Ok(None);
        }
        probe = probe * 2;
    }
    Ok(None)
}

/// A file that is recognised as HDF5 holds the HDF5 signature, so a superblock
/// can be looked for at that place.
pub proof fn recognised_hdf5_has_a_signature(b: Seq<u8>)
    requires
        container_of(b) == std::result::Result::<Container, ErrorView>::Ok(Container::Hdf5),
    ensures
        signature_offset(b) matches Some(p) && signature_at(b, p) && p >= 0,
{
    if !signature_at(b, 0) {
        lemma_signature_from(b, 512);
    }
}

/// What the probe finds is a signature.
pub proof fn lemma_signature_from(b: Seq<u8>, p: int)
    ensures
        signature_from(b, p) matches Some(q) ==> signature_at(b, q) && q >= p && q > 0,
    decreases (if b.len() > p { b.len() - p } else { 0 }),
{
    if p > 0 && p + 8 <= b.len() && !signature_at(b, p) {
        lemma_signature_from(b, 2 * p);
    }
}

} // verus!
