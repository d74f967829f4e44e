//! The datatype of an object: inline in its header, or committed elsewhere.

use vstd::prelude::*;

use crate::context::Ctx;
#[allow(unused_imports)]
use crate::context::CtxView;
#[allow(unused_imports)]
use crate::cursor::value_of;
use crate::error::{Error, Result};
#[allow(unused_imports)]
use crate::error::ErrorView;
use crate::message::datatype::Datatype;
#[allow(unused_imports)]
use crate::message::datatype::{datatype_at, DatatypeView};
#[allow(unused_imports)]
use crate::message::shared::shared_message;
use crate::message::shared::SharedMessage;
use crate::objheader::{MessageType, ObjectHeader};
#[allow(unused_imports)]
use crate::objheader::{first_of, header_at, ObjectHeaderView};
#[allow(unused_imports)]
use crate::source::agrees;
use crate::source::ByteSource;
use crate::text::{add_text, numbered};
#[allow(unused_imports)]
use crate::text::decimal;
#[allow(unused_imports)]
use crate::views::option_view;

verus! {

/// The datatype that a message body spells, as one that is there.
pub open spec fn inline_datatype(data: Seq<u8>) -> std::result::Result<
    Option<DatatypeView>,
    ErrorView,
> {
    match value_of(datatype_at(data, 0)) {
        Ok(d) => Ok(Some(d)),
        Err(e) => Err(e),
    }
}

/// The datatype that the object header at `address` commits. It must be there
/// and must not point elsewhere in turn.
pub open spec fn committed_datatype(ctx: CtxView, address: u64) -> std::result::Result<
    Option<DatatypeView>,
    ErrorView,
> {
    match header_at(ctx, address) { Err(e) => Err(e), Ok(header) =>
    match first_of(header.messages, MessageType::Datatype) {
        None => Err(ErrorView::Malformed(
            "committed datatype at address "@ + decimal(address as nat) + " holds no datatype"@)),
        Some(m) => if m.shared() {
            Err(ErrorView::Malformed(
                "committed datatype at address "@ + decimal(address as nat)
                    + " points at another message"@))
        } else {
            inline_datatype(m.data)
        },
    }}
}

/// The datatype of the object whose header is `header`.
pub open spec fn datatype_of(ctx: CtxView, header: ObjectHeaderView) -> std::result::Result<
    Option<DatatypeView>,
    ErrorView,
> {
    match first_of(header.messages, MessageType::Datatype) {
        None => Ok(None),
        Some(m) => if m.shared() {
            match shared_message(m.data, ctx.sizes()) { Err(e) => Err(e), Ok(pointer) =>
            match pointer.committed("datatype"@) { Err(e) => Err(e), Ok(address) =>
                committed_datatype(ctx, address) }}
        } else {
            inline_datatype(m.data)
        },
    }
}

/// Whether finding the datatype of an object reads anything: only one that another
/// object commits stands elsewhere in the file.
pub open spec fn datatype_reads(ctx: CtxView, header: ObjectHeaderView) -> bool {
    match first_of(header.messages, MessageType::Datatype) {
        None => false,
        Some(m) => m.shared() && match shared_message(m.data, ctx.sizes()) {
            Err(_) => false,
            Ok(pointer) => match pointer.committed("datatype"@) {
                Err(_) => false,
                Ok(address) => ctx.fetch_upto(address, 4) is Ok,
            },
        },
    }
}

impl ObjectHeader {
    /// The datatype of this object, when its header carries one.
    ///
    /// A shared datatype message is followed to the object header that commits
    /// the type.
    pub fn datatype<S: ByteSource + ?Sized>(&self, ctx: Ctx<'_, S>) -> (r: Result<Option<Datatype>>)
        ensures
            agrees(
                match r {
                    Ok(d) => Ok(option_view(d)),
                    Err(e) => Err(e@),
                },
                datatype_of(ctx@, self@),
                ctx.dependable() || !datatype_reads(ctx@, self@),
            ),
    {
        match self.message_of(MessageType::Datatype) {
            None => Ok(None),
            Some(m) => {
                if m.is_shared() {
                    let pointer = SharedMessage::parse(m.data.as_slice(), ctx.sizes())?;
                    let address: u64 = pointer.committed_address("datatype")?;
                    read_committed_datatype(ctx, address)
                } else {
                    Ok(Some(Datatype::parse(m.data.as_slice())?))
                }
            },
        }
    }
}

fn read_committed_datatype<S: ByteSource + ?Sized>(ctx: Ctx<'_, S>, address: u64) -> (r: Result<
    Option<Datatype>,
>)
    ensures
        agrees(
            match r {
                Ok(d) => Ok(option_view(d)),
                Err(e) => Err(e@),
            },
            committed_datatype(ctx@, address),
            ctx.dependable() || ctx@.fetch_upto(address, 4) is Err,
        ),
{
    let header = ObjectHeader::read(ctx, address)?;
    match header.message_of(MessageType::Datatype) {
        None => Err(
            Error::Malformed(
                add_text(
                    numbered("committed datatype at address ", address),
                    " holds no datatype",
                ),
            ),
        ),
        Some(m) => {
            if m.is_shared() {
                return Err(
                    Error::Malformed(
                        add_text(
                            numbered("committed datatype at address ", address),
                            " points at another message",
                        ),
                    ),
                );
            }
            Ok(Some(Datatype::parse(m.data.as_slice())?))
        },
    }
}

} // verus!
