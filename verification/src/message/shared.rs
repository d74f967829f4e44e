//! The shared message pointer: a message body that names another location.
//!
//! A message header sets [`MSG_FLAG_SHARED`] when its body is not the message
//! itself but a pointer to one message held elsewhere. HDF5 uses this for a
//! committed (named) datatype: the type lives in its own object header, and
//! every dataset of that type points at it.
//!
//! netCDF-4 writes a committed datatype for each user-defined type, so a file
//! that declares a compound, enum, opaque or vlen type reaches this code.
//!
//! [`MSG_FLAG_SHARED`]: crate::objheader::MSG_FLAG_SHARED

use vstd::prelude::*;

use crate::cursor::{Cursor, Sizes};
#[allow(unused_imports)]
use crate::cursor::{address_required_at, out_of_bounds, u8_at, Parse};
use crate::error::{Error, Result};
#[allow(unused_imports)]
use crate::error::{seen, ErrorView};
use crate::text::{joined, numbered};
#[allow(unused_imports)]
use crate::text::decimal;

verus! {

/// Where a shared message actually lives.
#[derive(Debug, Clone, Copy, PartialEq, Eq, Structural)]
pub enum SharedLocation {
    /// The message is not shared after all.
    Unshared,
    /// The message sits in the shared object header message heap.
    ///
    /// Only a file that turns on shared message tables holds one. netcdf-c
    /// never does.
    MessageHeap,
    /// The message is the sole message of the object header at this address.
    ///
    /// This is a committed, or named, datatype.
    Committed(u64),
    /// The message is shared but stored in the pointing object's own header.
    Here,
}

/// A parsed pointer to a message stored somewhere other than inline.
#[derive(Debug, Clone, Copy, PartialEq, Eq, Structural)]
pub struct SharedMessage {
    /// On-disk version, 1 through 3.
    pub version: u8,
    /// What the pointer refers to.
    pub location: SharedLocation,
}

impl View for SharedMessage {
    type V = SharedMessage;

    open spec fn view(&self) -> SharedMessage {
        *self
    }
}

/// The address of a committed message, as the pointer's location.
pub open spec fn committed_at(b: Seq<u8>, p: int, sizes: Sizes) -> Parse<SharedLocation> {
    match address_required_at(b, p, sizes, "shared message target"@) {
        Ok((a, q)) => Ok((SharedLocation::Committed(a), q)),
        Err(e) => Err(e),
    }
}

/// What a version 2 or 3 pointer of type `kind` refers to.
pub open spec fn location_at(b: Seq<u8>, p: int, kind: u8, sizes: Sizes) -> Parse<SharedLocation> {
    if kind == 0 {
        Ok((SharedLocation::Unshared, p))
    } else if kind == 1 {
        Ok((SharedLocation::MessageHeap, p))
    } else if kind == 2 {
        committed_at(b, p, sizes)
    } else if kind == 3 {
        Ok((SharedLocation::Here, p))
    } else {
        Err((ErrorView::Unsupported("shared message type "@ + decimal(kind as nat)), p))
    }
}

/// Where the pointer's location stands, and what it is. Version 1 pads its
/// header out to eight bytes and always points at a committed message.
pub open spec fn shared_location(b: Seq<u8>, version: u8, kind: u8, sizes: Sizes) -> Parse<
    SharedLocation,
> {
    if version == 1 {
        if 8 > b.len() {
            Err((out_of_bounds(8, 0, b.len() as int), 2))
        } else {
            committed_at(b, 8, sizes)
        }
    } else if version == 2 || version == 3 {
        location_at(b, 2, kind, sizes)
    } else {
        Err((ErrorView::Unsupported("shared message version "@ + decimal(version as nat)), 2))
    }
}

/// The pointer that a message body spells.
pub open spec fn shared_message(b: Seq<u8>, sizes: Sizes) -> std::result::Result<
    SharedMessage,
    ErrorView,
> {
    match u8_at(b, 0) { Err((e, _)) => Err(e), Ok((version, p)) =>
    match u8_at(b, p) { Err((e, _)) => Err(e), Ok((kind, _)) =>
    match shared_location(b, version, kind, sizes) { Err((e, _)) => Err(e), Ok((location, _)) =>
        Ok(SharedMessage { version, location })
    }}}
}

impl SharedMessage {
    /// Parse a shared message body.
    ///
    /// The three versions differ only in where the address starts. Version 1
    /// pads the header out to eight bytes; versions 2 and 3 put the address
    /// straight after the type byte.
    pub fn parse(body: &[u8], sizes: Sizes) -> (r: Result<Self>)
        ensures
            seen(r) == shared_message(body@, sizes),
    {
        let mut cur = Cursor::new(body);
        let version: u8 = cur.u8()?;

        // Version 1 records no type byte in practice: the field is there, but
        // the only thing version 1 ever pointed at was a committed datatype.
        let kind: u8 = cur.u8()?;

        match version {
            1 => cur.seek(8)?,
            2 | 3 => {},
            other => {
                return Err(Error::Unsupported(numbered("shared message version ", other as u64)));
            },
        }

        let location = if version == 1 {
            // Version 1 has no meaningful type code. It is always committed.
            SharedLocation::Committed(address_of(&mut cur, sizes)?)
        } else {
            match kind {
                0 => SharedLocation::Unshared,
                1 => SharedLocation::MessageHeap,
                2 => SharedLocation::Committed(address_of(&mut cur, sizes)?),
                3 => SharedLocation::Here,
                other => {
                    return Err(Error::Unsupported(numbered("shared message type ", other as u64)));
                },
            }
        };
        Ok(SharedMessage { version, location })
    }

    /// The committed address, or what is said of any other location.
    pub open spec fn committed(self, what: Seq<char>) -> std::result::Result<u64, ErrorView> {
        match self.location {
            SharedLocation::Committed(address) => Ok(address),
            SharedLocation::MessageHeap => Err(
                ErrorView::Unsupported(what + " held in the shared message heap"@),
            ),
            SharedLocation::Here => Err(
                ErrorView::Unsupported(what + " shared within its own object header"@),
            ),
            SharedLocation::Unshared => Err(
                ErrorView::Malformed(what + " is flagged shared but points nowhere"@),
            ),
        }
    }

    /// The object header address of a committed message, or an error naming
    /// what was found instead.
    ///
    /// Every caller wants a committed datatype, so the error text is written
    /// for that case.
    pub fn committed_address(&self, what: &str) -> (r: Result<u64>)
        ensures
            seen(r) == self.committed(what@),
    {
        match self.location {
            SharedLocation::Committed(address) => Ok(address),
            SharedLocation::MessageHeap => Err(
                Error::Unsupported(joined(what, " held in the shared message heap")),
            ),
            SharedLocation::Here => Err(
                Error::Unsupported(joined(what, " shared within its own object header")),
            ),
            SharedLocation::Unshared => Err(
                Error::Malformed(joined(what, " is flagged shared but points nowhere")),
            ),
        }
    }
}

fn address_of(cur: &mut Cursor<'_>, sizes: Sizes) -> (r: Result<u64>)
    ensures
        final(cur).moved(
            *old(cur),
            seen(r),
            address_required_at(
                old(cur).buf@,
                old(cur).pos as int,
                sizes,
                "shared message target"@,
            ),
        ),
{
    cur.address_required(sizes, "shared message target")
}

} // verus!
