//! Object headers, versions 1 and 2.
//!
//! An object header is the record for one HDF5 object: a group, a dataset or a
//! committed datatype. It is a list of typed messages. Everything this reader
//! needs about an object (its shape, its type, where its bytes live, its
//! attributes) arrives as a message.
//!
//! Two on-disk shapes exist and both appear in netcdf-c output:
//!
//! * Version 1 has no signature, pads every message to an 8-byte boundary, and
//!   continues into unsignposted continuation blocks.
//! * Version 2 starts with `OHDR`, packs messages without padding, optionally
//!   records a creation order per message, and checksums every block. Its
//!   continuation blocks start with `OCHK`.
//!
//! This module only frames the messages. It stores their bytes and leaves
//! interpretation to `message`, which keeps the framing rules in one place.

use std::collections::HashSet;

use vstd::prelude::*;
use vstd::slice::{slice_subrange, slice_to_vec};

use crate::bytes::{from_le, same_bytes};
#[allow(unused_imports)]
use crate::bytes::lemma_pow256_values;
use crate::checksum;
#[allow(unused_imports)]
use crate::checksum::metadata_checksum;
use crate::context::Ctx;
#[allow(unused_imports)]
use crate::context::CtxView;
use crate::cursor::{Cursor, Sizes};
#[allow(unused_imports)]
use crate::cursor::{
    address_required_at, length_at, skip_at, take_at, u16_in, u32_in, u8_at, uint_at, value_of,
    Parse,
};
use crate::error::{Error, Result};
#[allow(unused_imports)]
use crate::error::{seen, ErrorView};
#[allow(unused_imports)]
use crate::source::agrees;
use crate::source::ByteSource;
use crate::text::{add_number, joined, numbered};
#[allow(unused_imports)]
use crate::text::decimal;
#[allow(unused_imports)]
use crate::views::{option_view, views};

verus! {

broadcast use {crate::views::group_views, vstd::std_specs::hash::group_hash_axioms};

/// Signature of a version 2 object header, `OHDR`.
pub const OHDR_SIGNATURE: [u8; 4] = [0x4f, 0x48, 0x44, 0x52];

/// Signature of a version 2 object header continuation block, `OCHK`.
pub const OCHK_SIGNATURE: [u8; 4] = [0x4f, 0x43, 0x48, 0x4b];

/// Length of the longest prefix of a version 2 header: signature, version, flags,
/// four timestamps, the phase-change pair and an 8-byte chunk size.
pub const MAX_PREFIX_LEN: usize = 34;

/// Upper bound on continuation blocks followed for one object.
///
/// A corrupt file could otherwise send the parser round a cycle. Real objects
/// use a handful of blocks at most.
pub const MAX_CONTINUATION_BLOCKS: usize = 4096;

/// The type of a header message.
///
/// Values come from the format specification. Unrecognised types are preserved
/// as [`MessageType::Unknown`] rather than rejected, because the specification
/// requires readers to skip messages they do not understand.
#[derive(Debug, Clone, Copy, PartialEq, Eq, Hash, Structural)]
pub enum MessageType {
    /// Padding. Ignore.
    Nil,
    /// Rank and dimensions of a dataset or attribute.
    Dataspace,
    /// How links are stored in a group.
    LinkInfo,
    /// Element type.
    Datatype,
    /// Fill value, original encoding.
    FillValueOld,
    /// Fill value.
    FillValue,
    /// One link (a named child of a group).
    Link,
    /// Data stored outside the file.
    ExternalDataFiles,
    /// Where and how the dataset's raw bytes are stored.
    DataLayout,
    /// Test message. Never appears in real files.
    Bogus,
    /// Group creation properties.
    GroupInfo,
    /// The chain of filters applied to chunks.
    FilterPipeline,
    /// One attribute.
    Attribute,
    /// A comment.
    ObjectComment,
    /// Modification time, original encoding.
    ObjectModificationTimeOld,
    /// Shared message table.
    SharedMessageTable,
    /// Points at a continuation block.
    ObjectHeaderContinuation,
    /// Old-style group storage: B-tree plus local heap.
    SymbolTable,
    /// Modification time.
    ObjectModificationTime,
    /// B-tree rank overrides.
    BtreeKValues,
    /// File driver settings.
    DriverInfo,
    /// How attributes are stored in this object.
    AttributeInfo,
    /// Reference count.
    ObjectReferenceCount,
    /// A type this reader does not recognise.
    Unknown(u16),
}

/// The type that an on-disk code stands for.
pub open spec fn message_type(code: u16) -> MessageType {
    if code == 0x00 { MessageType::Nil }
    else if code == 0x01 { MessageType::Dataspace }
    else if code == 0x02 { MessageType::LinkInfo }
    else if code == 0x03 { MessageType::Datatype }
    else if code == 0x04 { MessageType::FillValueOld }
    else if code == 0x05 { MessageType::FillValue }
    else if code == 0x06 { MessageType::Link }
    else if code == 0x07 { MessageType::ExternalDataFiles }
    else if code == 0x08 { MessageType::DataLayout }
    else if code == 0x09 { MessageType::Bogus }
    else if code == 0x0A { MessageType::GroupInfo }
    else if code == 0x0B { MessageType::FilterPipeline }
    else if code == 0x0C { MessageType::Attribute }
    else if code == 0x0D { MessageType::ObjectComment }
    else if code == 0x0E { MessageType::ObjectModificationTimeOld }
    else if code == 0x0F { MessageType::SharedMessageTable }
    else if code == 0x10 { MessageType::ObjectHeaderContinuation }
    else if code == 0x11 { MessageType::SymbolTable }
    else if code == 0x12 { MessageType::ObjectModificationTime }
    else if code == 0x13 { MessageType::BtreeKValues }
    else if code == 0x14 { MessageType::DriverInfo }
    else if code == 0x15 { MessageType::AttributeInfo }
    else if code == 0x16 { MessageType::ObjectReferenceCount }
    else { MessageType::Unknown(code) }
}

impl MessageType {
    /// Map the on-disk code to a type.
    pub fn from_code(code: u16) -> (r: Self)
        ensures
            r == message_type(code),
    {
        match code {
            0x00 => MessageType::Nil,
            0x01 => MessageType::Dataspace,
            0x02 => MessageType::LinkInfo,
            0x03 => MessageType::Datatype,
            0x04 => MessageType::FillValueOld,
            0x05 => MessageType::FillValue,
            0x06 => MessageType::Link,
            0x07 => MessageType::ExternalDataFiles,
            0x08 => MessageType::DataLayout,
            0x09 => MessageType::Bogus,
            0x0A => MessageType::GroupInfo,
            0x0B => MessageType::FilterPipeline,
            0x0C => MessageType::Attribute,
            0x0D => MessageType::ObjectComment,
            0x0E => MessageType::ObjectModificationTimeOld,
            0x0F => MessageType::SharedMessageTable,
            0x10 => MessageType::ObjectHeaderContinuation,
            0x11 => MessageType::SymbolTable,
            0x12 => MessageType::ObjectModificationTime,
            0x13 => MessageType::BtreeKValues,
            0x14 => MessageType::DriverInfo,
            0x15 => MessageType::AttributeInfo,
            0x16 => MessageType::ObjectReferenceCount,
            other => MessageType::Unknown(other),
        }
    }
}

/// Message flag: the message body is a reference to a shared message.
pub const MSG_FLAG_SHARED: u8 = 0x02;

/// One framed message, with its body still unparsed.
#[derive(Debug, Clone)]
pub struct HeaderMessage {
    /// What kind of message this is.
    pub kind: MessageType,
    /// Raw flag bits.
    pub flags: u8,
    /// Creation order, when the object header tracks it.
    pub creation_order: Option<u16>,
    /// The message body.
    pub data: Vec<u8>,
}

/// What a [`HeaderMessage`] holds.
#[verifier::ext_equal]
pub struct HeaderMessageView {
    pub kind: MessageType,
    pub flags: u8,
    pub creation_order: Option<u16>,
    pub data: Seq<u8>,
}

impl View for HeaderMessage {
    type V = HeaderMessageView;

    open spec fn view(&self) -> HeaderMessageView {
        HeaderMessageView {
            kind: self.kind,
            flags: self.flags,
            creation_order: self.creation_order,
            data: self.data@,
        }
    }
}

impl HeaderMessageView {
    /// The body is a pointer to a message shared with other objects.
    pub open spec fn shared(self) -> bool {
        self.flags & MSG_FLAG_SHARED != 0
    }
}

impl HeaderMessage {
    /// Whether the body is a pointer to a message shared with other objects.
    pub fn is_shared(&self) -> (r: bool)
        ensures
            r == self@.shared(),
    {
        self.flags & MSG_FLAG_SHARED != 0
    }
}

/// How a header frames its messages: version 1, or version 2 with or without a
/// creation order on each message.
#[derive(Clone, Copy)]
pub enum Framing {
    V1,
    V2 { tracks_creation_order: bool },
}

/// One message as it stands in a block, and where the next one starts.
pub struct Frame {
    pub code: u16,
    pub flags: u8,
    pub creation_order: Option<u16>,
    pub data: Seq<u8>,
    pub next: int,
}

/// Messages surfaced so far, and continuation blocks still to be read.
#[verifier::ext_equal]
pub struct Gathered {
    pub messages: Seq<HeaderMessageView>,
    pub queue: Seq<(u64, u64)>,
}

impl Framing {
    /// How many bytes stand before a message body.
    pub open spec fn header_len(self) -> int {
        match self {
            Framing::V1 => 8,
            Framing::V2 { tracks_creation_order } => if tracks_creation_order {
                6
            } else {
                4
            },
        }
    }

    /// The size that the message header at `p` gives for the body.
    pub open spec fn size_at(self, b: Seq<u8>, p: int) -> int {
        match self {
            Framing::V1 => u16_in(b, p + 2) as int,
            Framing::V2 { .. } => u16_in(b, p + 1) as int,
        }
    }

    /// The message at `p`. A trailing gap too small to hold a header and the
    /// body that it announces is the end of the block, not a failure.
    pub open spec fn frame_at(self, b: Seq<u8>, p: int) -> Option<Frame> {
        let start = p + self.header_len();
        if b.len() < start || b.len() - start < self.size_at(b, p) {
            None
        } else {
            let next = start + self.size_at(b, p);
            Some(match self {
                Framing::V1 => Frame {
                    code: u16_in(b, p),
                    flags: b[p + 4],
                    creation_order: None,
                    data: b.subrange(start, next),
                    next,
                },
                Framing::V2 { tracks_creation_order } => Frame {
                    code: b[p] as u16,
                    flags: b[p + 3],
                    creation_order: if tracks_creation_order {
                        Some(u16_in(b, p + 4))
                    } else {
                        None
                    },
                    data: b.subrange(start, next),
                    next,
                },
            })
        }
    }

    /// The messages of `b` from `p` on, gathered behind `so_far`.
    pub open spec fn messages_from(
        self,
        b: Seq<u8>,
        p: int,
        sizes: Sizes,
        so_far: Gathered,
    ) -> std::result::Result<Gathered, ErrorView>
        decreases b.len() - p,
    {
        match self.frame_at(b, p) {
            None => Ok(so_far),
            Some(frame) => if frame.next <= p {
                Ok(so_far)
            } else {
                match so_far.filed(frame, sizes) {
                    Err(e) => Err(e),
                    Ok(more) => self.messages_from(b, frame.next, sizes, more),
                }
            },
        }
    }
}

/// The address and length that a continuation message names.
pub open spec fn continuation(data: Seq<u8>, sizes: Sizes) -> std::result::Result<
    (u64, u64),
    ErrorView,
> {
    match address_required_at(data, 0, sizes, "object header continuation"@) { Err((e, _)) => Err(e), Ok((address, p)) =>
    match length_at(data, p, sizes) { Err((e, _)) => Err(e), Ok((length, _)) => Ok((address, length)) }}
}

impl Gathered {
    /// One more message: a continuation is queued, padding is dropped, and
    /// everything else is surfaced.
    pub open spec fn filed(self, frame: Frame, sizes: Sizes) -> std::result::Result<
        Gathered,
        ErrorView,
    > {
        let kind = message_type(frame.code);
        if kind == MessageType::ObjectHeaderContinuation {
            match continuation(frame.data, sizes) {
                Err(e) => Err(e),
                Ok(block) => Ok(Gathered { messages: self.messages, queue: self.queue.push(block) }),
            }
        } else if kind == MessageType::Nil {
            Ok(self)
        } else {
            Ok(
                Gathered {
                    messages: self.messages.push(
                        HeaderMessageView {
                            kind,
                            flags: frame.flags,
                            creation_order: frame.creation_order,
                            data: frame.data,
                        },
                    ),
                    queue: self.queue,
                },
            )
        }
    }
}

/// Whether the four bytes behind the first `len` of `block` are their checksum.
pub open spec fn checked(block: Seq<u8>, len: int, what: Seq<char>) -> std::result::Result<
    (),
    ErrorView,
> {
    if block.len() < len + 4 {
        Err(ErrorView::Malformed(what + " is truncated before its checksum"@))
    } else {
        let stored = u32_in(block, len);
        let computed = metadata_checksum(block.take(len));
        if stored != computed {
            Err(ErrorView::ChecksumMismatch { what, stored, computed })
        } else {
            Ok(())
        }
    }
}

/// The message area of a continuation block.
pub open spec fn block_body(
    ctx: CtxView,
    framing: Framing,
    address: u64,
    len: u64,
) -> std::result::Result<Seq<u8>, ErrorView> {
    match framing {
        Framing::V1 => ctx.fetch(address, len as int),
        Framing::V2 { .. } => if len < 8 {
            Err(
                ErrorView::Malformed(
                    "OCHK continuation block is too short to hold a signature and checksum"@,
                ),
            )
        } else {
            match ctx.fetch(address, len as int) {
                Err(e) => Err(e),
                Ok(block) => if block.take(4) != OCHK_SIGNATURE@ {
                    Err(
                        ErrorView::Malformed(
                            "object header continuation block is missing its OCHK signature"@,
                        ),
                    )
                } else {
                    match checked(block, len - 4, "object header continuation"@) {
                        Err(e) => Err(e),
                        Ok(_) => Ok(block.subrange(4, len - 4)),
                    }
                },
            }
        },
    }
}

/// The messages of every queued block, the last queued first. `blocks` blocks
/// were read before, at the addresses in `visited`.
pub open spec fn follow(
    ctx: CtxView,
    framing: Framing,
    so_far: Gathered,
    visited: Set<u64>,
    blocks: nat,
) -> std::result::Result<Seq<HeaderMessageView>, ErrorView>
    decreases MAX_CONTINUATION_BLOCKS - blocks,
{
    if so_far.queue.len() == 0 {
        Ok(so_far.messages)
    } else if blocks >= MAX_CONTINUATION_BLOCKS {
        Err(
            ErrorView::Malformed(
                "object header has too many continuation blocks; the file may be cyclic"@,
            ),
        )
    } else {
        let (address, len) = so_far.queue.last();
        let rest = Gathered { messages: so_far.messages, queue: so_far.queue.drop_last() };
        if visited.contains(address) {
            Err(
                ErrorView::Malformed(
                    "object header continuation cycle at address "@ + decimal(address as nat),
                ),
            )
        } else {
            match block_body(ctx, framing, address, len) {
                Err(e) => Err(e),
                Ok(body) => match framing.messages_from(body, 0, ctx.sizes(), rest) {
                    Err(e) => Err(e),
                    Ok(more) => follow(ctx, framing, more, visited.insert(address), blocks + 1),
                },
            }
        }
    }
}

/// What an [`ObjectHeader`] holds.
#[verifier::ext_equal]
pub struct ObjectHeaderView {
    pub address: u64,
    pub version: u8,
    pub messages: Seq<HeaderMessageView>,
}

/// A fully read object header, with continuation blocks already followed.
#[derive(Debug, Clone)]
pub struct ObjectHeader {
    /// Address this header was read from.
    pub address: u64,
    /// On-disk version, 1 or 2.
    pub version: u8,
    /// Every message, in the order encountered.
    pub messages: Vec<HeaderMessage>,
}

impl View for ObjectHeader {
    type V = ObjectHeaderView;

    open spec fn view(&self) -> ObjectHeaderView {
        ObjectHeaderView {
            address: self.address,
            version: self.version,
            messages: views(self.messages@),
        }
    }
}

/// The version 1 header at `address`.
pub open spec fn header_v1(ctx: CtxView, address: u64) -> std::result::Result<
    ObjectHeaderView,
    ErrorView,
> {
    match ctx.fetch(address, 16) { Err(e) => Err(e), Ok(b) =>
    if b[0] != 1 {
        Err(ErrorView::Unsupported(
            "object header version "@ + decimal(b[0] as nat) + " at address "@
                + decimal(address as nat)))
    } else {
        let first = ((address + 16) % 0x1_0000_0000_0000_0000) as u64;
        let len = u32_in(b, 8) as u64;
        let start = Gathered { messages: Seq::empty(), queue: seq![(first, len)] };
        match follow(ctx, Framing::V1, start, Set::empty(), 0) { Err(e) => Err(e), Ok(messages) =>
            Ok(ObjectHeaderView { address, version: 1, messages }) }
    }}
}

/// What the prefix of a version 2 header says.
pub struct PrefixV2 {
    pub framing: Framing,
    pub len: int,
    pub chunk_len: u64,
}

/// Skipping `n` bytes where a flag announces them.
pub open spec fn skip_if(b: Seq<u8>, p: int, announced: bool, n: int) -> Parse<()> {
    if announced {
        skip_at(b, p, n)
    } else {
        Ok(((), p))
    }
}

/// The width in bytes of the first chunk's size field.
pub open spec fn chunk_len_width(flags: u8) -> u8 {
    if flags % 4 == 0 {
        1
    } else if flags % 4 == 1 {
        2
    } else if flags % 4 == 2 {
        4
    } else {
        8
    }
}

/// The prefix of a version 2 header: signature, version, flags, optional times
/// and attribute counts, and the size of the first chunk.
pub open spec fn prefix_v2(b: Seq<u8>) -> Parse<PrefixV2> {
    match take_at(b, 0, 4) { Err(e) => Err(e), Ok((signature, p)) =>
    if signature != OHDR_SIGNATURE@ {
        Err((ErrorView::Malformed("object header is missing its OHDR signature"@), p))
    } else {
        match u8_at(b, p) { Err(e) => Err(e), Ok((version, p)) =>
        if version != 2 {
            Err((ErrorView::Unsupported("OHDR object header version "@ + decimal(version as nat)), p))
        } else {
            match u8_at(b, p) { Err(e) => Err(e), Ok((flags, p)) =>
            match skip_if(b, p, flags & 0x20 != 0, 16) { Err(e) => Err(e), Ok((_, p)) =>
            match skip_if(b, p, flags & 0x10 != 0, 4) { Err(e) => Err(e), Ok((_, p)) =>
            match uint_at(b, p, chunk_len_width(flags)) { Err(e) => Err(e), Ok((chunk_len, p)) =>
                Ok((PrefixV2 {
                    framing: Framing::V2 { tracks_creation_order: flags & 0x04 != 0 },
                    len: p,
                    chunk_len,
                }, p))
            }}}}
        }}
    }}
}

/// The version 2 header at `address`. The first chunk's checksum covers the
/// prefix and the message area.
pub open spec fn header_v2(ctx: CtxView, address: u64) -> std::result::Result<
    ObjectHeaderView,
    ErrorView,
> {
    match ctx.fetch_upto(address, MAX_PREFIX_LEN as int) { Err(e) => Err(e), Ok(head) =>
    match prefix_v2(head) { Err((e, _)) => Err(e), Ok((prefix, _)) =>
    match ctx.fetch(address, prefix.len + prefix.chunk_len + 4) { Err(e) => Err(e), Ok(block) =>
    match checked(block, prefix.len + prefix.chunk_len, "object header"@) { Err(e) => Err(e), Ok(_) =>
    match prefix.framing.messages_from(
        block.subrange(prefix.len, prefix.len + prefix.chunk_len),
        0,
        ctx.sizes(),
        Gathered { messages: Seq::empty(), queue: Seq::empty() },
    ) { Err(e) => Err(e), Ok(first) =>
    match follow(ctx, prefix.framing, first, Set::empty().insert(address), 0) { Err(e) => Err(e), Ok(messages) =>
        Ok(ObjectHeaderView { address, version: 2, messages })
    }}}}}}
}

/// The object header at `address`; its signature tells a version 2 header.
pub open spec fn header_at(ctx: CtxView, address: u64) -> std::result::Result<
    ObjectHeaderView,
    ErrorView,
> {
    match ctx.fetch_upto(address, 4) {
        Err(e) => Err(e),
        Ok(probe) => if probe == OHDR_SIGNATURE@ {
            header_v2(ctx, address)
        } else {
            header_v1(ctx, address)
        },
    }
}

/// The first message of a type.
pub open spec fn first_of(messages: Seq<HeaderMessageView>, kind: MessageType) -> Option<
    HeaderMessageView,
>
    decreases messages.len(),
{
    if messages.len() == 0 {
        None
    } else if messages[0].kind == kind {
        Some(messages[0])
    } else {
        first_of(messages.skip(1), kind)
    }
}

/// Messages and queued blocks, as a [`Gathered`].
pub open spec fn gathered(messages: Seq<HeaderMessage>, queue: Seq<(u64, u64)>) -> Gathered {
    Gathered { messages: views(messages), queue }
}

impl ObjectHeader {
    /// Read and parse the object header at `address`.
    pub fn read<S: ByteSource + ?Sized>(ctx: Ctx<'_, S>, address: u64) -> (r: Result<Self>)
        ensures
            agrees(
                seen(r),
                header_at(ctx@, address),
                ctx.dependable() || ctx@.fetch_upto(address, 4) is Err,
            ),
    {
        let probe = ctx.read_upto(address, 4)?;
        if same_bytes(probe.as_slice(), OHDR_SIGNATURE.as_slice()) {
            Self::read_v2(ctx, address)
        } else {
            Self::read_v1(ctx, address)
        }
    }

    /// Every message of a given type.
    pub fn messages_of(&self, kind: MessageType) -> (r: Vec<&HeaderMessage>)
        ensures
            views(r@) == self@.messages.filter(|m: HeaderMessageView| m.kind == kind),
    {
        let mut out: Vec<&HeaderMessage> = Vec::new();
        let mut i: usize = 0;
        let ghost wanted = |m: HeaderMessageView| m.kind == kind;
        proof {
            reveal(Seq::filter);
        }
        while i < self.messages.len()
            invariant
                i <= self.messages@.len(),
                wanted == (|m: HeaderMessageView| m.kind == kind),
                views(out@) == self@.messages.take(i as int).filter(wanted),
            decreases self.messages@.len() - i,
        {
            proof {
                reveal(Seq::filter);
                assert(self@.messages.take(i + 1).drop_last() =~= self@.messages.take(i as int));
            }
            if self.messages[i].kind == kind {
                out.push(&self.messages[i]);
            }
            i = i + 1;
        }
        assert(self@.messages.take(i as int) =~= self@.messages);
        out
    }

    /// The first message of a given type, if any.
    pub fn message_of(&self, kind: MessageType) -> (r: Option<&HeaderMessage>)
        ensures
            option_view(r) == first_of(self@.messages, kind),
    {
        let mut i: usize = 0;
        assert(self@.messages.skip(0) =~= self@.messages);
        while i < self.messages.len()
            invariant
                i <= self.messages@.len(),
                first_of(self@.messages, kind) == first_of(self@.messages.skip(i as int), kind),
            decreases self.messages@.len() - i,
        {
            if self.messages[i].kind == kind {
                return Some(&self.messages[i]);
            }
            assert(self@.messages.skip(i as int).skip(1) =~= self@.messages.skip(i + 1));
            i = i + 1;
        }
        None
    }

    // ── version 1 ──────────────────────────────────────────────────────────

    fn read_v1<S: ByteSource + ?Sized>(ctx: Ctx<'_, S>, address: u64) -> (r: Result<Self>)
        ensures
            agrees(seen(r), header_v1(ctx@, address), ctx.dependable()),
    {
        let prefix = ctx.read(address, 16)?;
        let mut cur = Cursor::new(prefix.as_slice());

        let version: u8 = cur.u8()?;
        if version != 1 {
            let m = numbered("object header version ", version as u64);
            return Err(Error::Unsupported(add_number(crate::text::add_text(m, " at address "), address)));
        }
        cur.skip(1)?;  // reserved
        let _total_messages: u16 = cur.u16()?;
        let _reference_count: u32 = cur.u32()?;
        let first_block_len: u32 = cur.u32()?;
        // The remaining 4 bytes of the prefix pad the first message to an
        // 8-byte boundary.

        let first: u64 = address.wrapping_add(16);
        let mut queue: Vec<(u64, u64)> = Vec::new();
        queue.push((first, first_block_len as u64));
        proof {
            assert(queue@ =~= seq![(first, first_block_len as u64)]);
        }
        let messages = Self::follow_blocks(ctx, Framing::V1, Vec::new(), queue, HashSet::new())?;
        Ok(ObjectHeader { address, version, messages })
    }

    /// Read every queued block and the blocks that those queue in turn.
    fn follow_blocks<S: ByteSource + ?Sized>(
        ctx: Ctx<'_, S>,
        framing: Framing,
        found: Vec<HeaderMessage>,
        pending: Vec<(u64, u64)>,
        seen_blocks: HashSet<u64>,
    ) -> (r: Result<Vec<HeaderMessage>>)
        ensures
            agrees(
                match r {
                    Ok(v) => Ok(views(v@)),
                    Err(e) => Err(e@),
                },
                follow(ctx@, framing, gathered(found@, pending@), seen_blocks@, 0),
                ctx.dependable(),
            ),
    {
        let mut messages = found;
        let mut queue = pending;
        let mut visited = seen_blocks;
        let mut blocks: usize = 0;
        let ghost want = follow(ctx@, framing, gathered(found@, pending@), seen_blocks@, 0);
        while queue.len() > 0
            invariant
                blocks <= MAX_CONTINUATION_BLOCKS,
                want == follow(ctx@, framing, gathered(found@, pending@), seen_blocks@, 0),
                want == follow(ctx@, framing, gathered(messages@, queue@), visited@, blocks as nat),
            decreases MAX_CONTINUATION_BLOCKS - blocks,
        {
            let ghost before = gathered(messages@, queue@);
            let (block_address, block_len): (u64, u64) = queue.pop().unwrap();
            if blocks >= MAX_CONTINUATION_BLOCKS {
                return Err(
                    Error::malformed(
                        "object header has too many continuation blocks; the file may be cyclic",
                    ),
                );
            }
            blocks = blocks + 1;
            if !visited.insert(block_address) {
                return Err(
                    Error::Malformed(
                        numbered("object header continuation cycle at address ", block_address),
                    ),
                );
            }
            let body = Self::read_block(ctx, framing, block_address, block_len)?;
            Self::parse_messages(ctx.sizes(), framing, body.as_slice(), &mut messages, &mut queue)?;
        }
        Ok(messages)
    }

    /// Read the message area of one continuation block.
    fn read_block<S: ByteSource + ?Sized>(
        ctx: Ctx<'_, S>,
        framing: Framing,
        address: u64,
        len: u64,
    ) -> (r: Result<Vec<u8>>)
        ensures
            agrees(seen(r), block_body(ctx@, framing, address, len), ctx.dependable()),
    {
        match framing {
            // Message offsets inside a v1 header are aligned relative to the
            // start of the header, and every block begins 8-byte aligned, so
            // aligning within the block gives the same answer.
            Framing::V1 => ctx.read(address, len),
            Framing::V2 { .. } => {
                if len < 8 {
                    return Err(
                        Error::malformed(
                            "OCHK continuation block is too short to hold a signature and checksum",
                        ),
                    );
                }
                let block = ctx.read(address, len)?;
                let bytes = block.as_slice();
                let signature = slice_subrange(bytes, 0, 4);
                assert(signature@ =~= block@.take(4));
                if !same_bytes(signature, OCHK_SIGNATURE.as_slice()) {
                    return Err(
                        Error::malformed(
                            "object header continuation block is missing its OCHK signature",
                        ),
                    );
                }
                let end: usize = block.len() - 4;
                verify_checksum(bytes, end, "object header continuation")?;
                Ok(slice_to_vec(slice_subrange(bytes, 4, end)))
            },
        }
    }

    fn parse_messages(
        sizes: Sizes,
        framing: Framing,
        body: &[u8],
        out: &mut Vec<HeaderMessage>,
        queue: &mut Vec<(u64, u64)>,
    ) -> (r: Result<()>)
        ensures
            (match r {
                Ok(()) => Ok(gathered(final(out)@, final(queue)@)),
                Err(e) => Err(e@),
            }) == framing.messages_from(body@, 0, sizes, gathered(old(out)@, old(queue)@)),
    {
        match framing {
            Framing::V1 => Self::parse_v1_messages(sizes, body, out, queue),
            Framing::V2 { tracks_creation_order } => Self::parse_v2_messages(
                sizes,
                body,
                tracks_creation_order,
                out,
                queue,
            ),
        }
    }

    fn parse_v1_messages(
        sizes: Sizes,
        block: &[u8],
        out: &mut Vec<HeaderMessage>,
        queue: &mut Vec<(u64, u64)>,
    ) -> (r: Result<()>)
        ensures
            (match r {
                Ok(()) => Ok(gathered(final(out)@, final(queue)@)),
                Err(e) => Err(e@),
            }) == Framing::V1.messages_from(block@, 0, sizes, gathered(old(out)@, old(queue)@)),
    {
        let mut cur = Cursor::new(block);
        let ghost want = Framing::V1.messages_from(
            block@,
            0,
            sizes,
            gathered(old(out)@, old(queue)@),
        );
        while cur.remaining() >= 8
            invariant
                cur.buf@ == block@,
                want == Framing::V1.messages_from(
                    block@,
                    0,
                    sizes,
                    gathered(old(out)@, old(queue)@),
                ),
                want == Framing::V1.messages_from(
                    block@,
                    cur.pos as int,
                    sizes,
                    gathered(out@, queue@),
                ),
            decreases cur.buf@.len() - cur.pos,
        {
            let code: u16 = cur.u16()?;
            let size: u16 = cur.u16()?;
            let flags: u8 = cur.u8()?;
            cur.skip(3)?;  // reserved
            if cur.remaining() < size as usize {
                // A trailing gap too small to hold the body. Treat as the end
                // of the block rather than a failure: version 1 headers pad.
                return Ok(());
            }
            let data = slice_to_vec(cur.take(size as usize)?);
            file_message(code, flags, None, data, sizes, out, queue)?;
        }
        Ok(())
    }

    // ── version 2 ──────────────────────────────────────────────────────────

    fn read_v2<S: ByteSource + ?Sized>(ctx: Ctx<'_, S>, address: u64) -> (r: Result<Self>)
        ensures
            agrees(seen(r), header_v2(ctx@, address), ctx.dependable()),
    {
        // Read a window big enough for the longest possible prefix: signature,
        // version, flags, four timestamps, the phase-change pair and an 8-byte
        // chunk size.
        let head = ctx.read_upto(address, MAX_PREFIX_LEN)?;
        let (tracks_creation_order, prefix_len, chunk0_len): (bool, usize, u64) = parse_prefix_v2(
            head.as_slice(),
        )?;
        let framing = Framing::V2 { tracks_creation_order };

        // The first chunk's checksum covers the prefix and the message area.
        if chunk0_len > u64::MAX - 4 - prefix_len as u64 {
            return Err(Error::malformed("a structure is longer than memory can hold"));
        }
        let first_block = ctx.read(address, prefix_len as u64 + chunk0_len + 4)?;
        let body_end: usize = first_block.len() - 4;
        verify_checksum(first_block.as_slice(), body_end, "object header")?;

        let mut messages: Vec<HeaderMessage> = Vec::new();
        let mut queue: Vec<(u64, u64)> = Vec::new();
        Self::parse_v2_messages(
            ctx.sizes(),
            slice_subrange(first_block.as_slice(), prefix_len, body_end),
            tracks_creation_order,
            &mut messages,
            &mut queue,
        )?;

        let mut visited: HashSet<u64> = HashSet::new();
        visited.insert(address);
        let messages = Self::follow_blocks(ctx, framing, messages, queue, visited)?;
        Ok(ObjectHeader { address, version: 2, messages })
    }

    fn parse_v2_messages(
        sizes: Sizes,
        body: &[u8],
        tracks_creation_order: bool,
        out: &mut Vec<HeaderMessage>,
        queue: &mut Vec<(u64, u64)>,
    ) -> (r: Result<()>)
        ensures
            (match r {
                Ok(()) => Ok(gathered(final(out)@, final(queue)@)),
                Err(e) => Err(e@),
            }) == (Framing::V2 { tracks_creation_order }).messages_from(
                body@,
                0,
                sizes,
                gathered(old(out)@, old(queue)@),
            ),
    {
        let header_len: usize = if tracks_creation_order { 6 } else { 4 };
        let mut cur = Cursor::new(body);
        let ghost framing = Framing::V2 { tracks_creation_order };
        let ghost want = framing.messages_from(body@, 0, sizes, gathered(old(out)@, old(queue)@));
        while cur.remaining() >= header_len
            invariant
                cur.buf@ == body@,
                header_len == framing.header_len(),
                framing == (Framing::V2 { tracks_creation_order }),
                want == framing.messages_from(body@, 0, sizes, gathered(old(out)@, old(queue)@)),
                want == framing.messages_from(
                    body@,
                    cur.pos as int,
                    sizes,
                    gathered(out@, queue@),
                ),
            decreases cur.buf@.len() - cur.pos,
        {
            let code: u8 = cur.u8()?;
            let size: u16 = cur.u16()?;
            let flags: u8 = cur.u8()?;
            let creation_order: Option<u16> = if tracks_creation_order {
                Some(cur.u16()?)
            } else {
                None
            };
            if cur.remaining() < size as usize {
                // The tail of a chunk may hold a gap too small for another
                // message. Stop rather than fail.
                return Ok(());
            }
            let data = slice_to_vec(cur.take(size as usize)?);
            file_message(code as u16, flags, creation_order, data, sizes, out, queue)?;
        }
        Ok(())
    }
}

/// Parse the prefix of a version 2 header: whether messages carry a creation
/// order, where the message area starts, and how long it is.
fn parse_prefix_v2(head: &[u8]) -> (r: Result<(bool, usize, u64)>)
    ensures
        (match r {
            Ok((tracks_creation_order, len, chunk_len)) => Ok(
                PrefixV2 {
                    framing: Framing::V2 { tracks_creation_order },
                    len: len as int,
                    chunk_len,
                },
            ),
            Err(e) => Err(e@),
        }) == value_of(prefix_v2(head@)),
        r matches Ok((_, len, _)) ==> len <= head@.len(),
{
    let mut cur = Cursor::new(head);
    let sig = cur.take(4)?;
    if !same_bytes(sig, OHDR_SIGNATURE.as_slice()) {
        return Err(Error::malformed("object header is missing its OHDR signature"));
    }
    let version: u8 = cur.u8()?;
    if version != 2 {
        return Err(Error::Unsupported(numbered("OHDR object header version ", version as u64)));
    }
    let flags: u8 = cur.u8()?;
    if flags & 0x20 != 0 {
        cur.skip(16)?;  // access, modification, change and birth times
    }
    if flags & 0x10 != 0 {
        cur.skip(4)?;  // max compact and min dense attribute counts
    }
    let size_width: u8 = match flags % 4 {
        0 => 1,
        1 => 2,
        2 => 4,
        _ => 8,
    };
    let chunk0_len: u64 = cur.uint(size_width)?;
    Ok((flags & 0x04 != 0, cur.pos(), chunk0_len))
}

/// Surface a message, queue the block that it names, or drop it.
fn file_message(
    code: u16,
    flags: u8,
    creation_order: Option<u16>,
    data: Vec<u8>,
    sizes: Sizes,
    out: &mut Vec<HeaderMessage>,
    queue: &mut Vec<(u64, u64)>,
) -> (r: Result<()>)
    ensures
        (match r {
            Ok(()) => Ok(gathered(final(out)@, final(queue)@)),
            Err(e) => Err(e@),
        }) == gathered(old(out)@, old(queue)@).filed(
            (Frame { code, flags, creation_order, data: data@, next: 0 }),
            sizes,
        ),
{
    let kind = MessageType::from_code(code);
    if kind == MessageType::ObjectHeaderContinuation {
        let block = parse_continuation(data.as_slice(), sizes)?;
        queue.push(block);
    } else if kind != MessageType::Nil {
        out.push(HeaderMessage { kind, flags, creation_order, data });
    }
    Ok(())
}

/// Read the address and length out of a continuation message body.
fn parse_continuation(data: &[u8], sizes: Sizes) -> (r: Result<(u64, u64)>)
    ensures
        (match r {
            Ok(v) => Ok(v),
            Err(e) => Err(e@),
        }) == continuation(data@, sizes),
{
    let mut cur = Cursor::new(data);
    let address: u64 = cur.address_required(sizes, "object header continuation")?;
    let length: u64 = cur.length(sizes)?;
    Ok((address, length))
}

/// Check the 4-byte checksum that follows `len` bytes of `block`.
pub(crate) fn verify_checksum(block: &[u8], len: usize, what: &'static str) -> (r: Result<()>)
    requires
        len <= block@.len(),
    ensures
        seen(r) == checked(block@, len as int, what@),
{
    if block.len() - len < 4 {
        return Err(Error::Malformed(joined(what, " is truncated before its checksum")));
    }
    proof {
        lemma_pow256_values();
    }
    let stored: u32 = from_le(slice_subrange(block, len, len + 4)) as u32;
    let covered = slice_subrange(block, 0, len);
    assert(covered@ =~= block@.take(len as int));
    let computed: u32 = checksum::metadata(covered);
    if stored != computed {
        return Err(Error::ChecksumMismatch { what, stored, computed });
    }
    Ok(())
}

// ── what is never surfaced ─────────────────────────────────────────────────

/// No message is padding or a pointer to more messages.
pub open spec fn only_content(messages: Seq<HeaderMessageView>) -> bool {
    forall|i: int|
        0 <= i < messages.len() ==> (#[trigger] messages[i]).kind != MessageType::Nil
            && messages[i].kind != MessageType::ObjectHeaderContinuation
}

proof fn lemma_messages_from(framing: Framing, b: Seq<u8>, p: int, sizes: Sizes, so_far: Gathered)
    requires
        only_content(so_far.messages),
    ensures
        framing.messages_from(b, p, sizes, so_far) matches Ok(more) ==> only_content(more.messages),
    decreases b.len() - p,
{
    match framing.frame_at(b, p) {
        None => {},
        Some(frame) => if frame.next > p {
            match so_far.filed(frame, sizes) {
                Err(_) => {},
                Ok(more) => {
                    assert(only_content(more.messages));
                    lemma_messages_from(framing, b, frame.next, sizes, more);
                },
            }
        },
    }
}

proof fn lemma_follow(
    ctx: CtxView,
    framing: Framing,
    so_far: Gathered,
    visited: Set<u64>,
    blocks: nat,
)
    requires
        only_content(so_far.messages),
    ensures
        follow(ctx, framing, so_far, visited, blocks) matches Ok(messages) ==> only_content(
            messages,
        ),
    decreases MAX_CONTINUATION_BLOCKS - blocks,
{
    if so_far.queue.len() > 0 && blocks < MAX_CONTINUATION_BLOCKS {
        let (address, len) = so_far.queue.last();
        let rest = Gathered { messages: so_far.messages, queue: so_far.queue.drop_last() };
        match block_body(ctx, framing, address, len) {
            Err(_) => {},
            Ok(body) => {
                lemma_messages_from(framing, body, 0, ctx.sizes(), rest);
                match framing.messages_from(body, 0, ctx.sizes(), rest) {
                    Err(_) => {},
                    Ok(more) => {
                        lemma_follow(ctx, framing, more, visited.insert(address), blocks + 1);
                    },
                }
            },
        }
    }
}

/// Padding and continuation pointers are framing details, not content: a header
/// that was read surfaces neither.
pub proof fn framing_is_never_surfaced(ctx: CtxView, address: u64)
    ensures
        header_at(ctx, address) matches Ok(header) ==> only_content(header.messages),
{
    match ctx.fetch(address, 16) {
        Ok(b) => {
            let first = ((address + 16) % 0x1_0000_0000_0000_0000) as u64;
            let start = Gathered {
                messages: Seq::empty(),
                queue: seq![(first, u32_in(b, 8) as u64)],
            };
            lemma_follow(ctx, Framing::V1, start, Set::empty(), 0);
        },
        Err(_) => {},
    }
    match ctx.fetch_upto(address, MAX_PREFIX_LEN as int) {
        Ok(head) => match prefix_v2(head) {
            Ok((prefix, _)) => match ctx.fetch(address, prefix.len + prefix.chunk_len + 4) {
                Ok(block) => {
                    let area = block.subrange(prefix.len, prefix.len + prefix.chunk_len);
                    let start = Gathered { messages: Seq::empty(), queue: Seq::empty() };
                    lemma_messages_from(prefix.framing, area, 0, ctx.sizes(), start);
                    match prefix.framing.messages_from(area, 0, ctx.sizes(), start) {
                        Ok(first) => {
                            lemma_follow(
                                ctx,
                                prefix.framing,
                                first,
                                Set::empty().insert(address),
                                0,
                            );
                        },
                        Err(_) => {},
                    }
                },
                Err(_) => {},
            },
            Err(_) => {},
        },
        Err(_) => {},
    }
}

/// The blocks that [`follow`] reads, in order, each by its address and length.
pub open spec fn followed(
    ctx: CtxView,
    framing: Framing,
    so_far: Gathered,
    visited: Set<u64>,
    blocks: nat,
) -> Seq<(u64, u64)>
    decreases MAX_CONTINUATION_BLOCKS - blocks,
{
    if so_far.queue.len() == 0 || blocks >= MAX_CONTINUATION_BLOCKS {
        Seq::empty()
    } else {
        let (address, len) = so_far.queue.last();
        let rest = Gathered { messages: so_far.messages, queue: so_far.queue.drop_last() };
        if visited.contains(address) {
            Seq::empty()
        } else {
            match block_body(ctx, framing, address, len) {
                Err(_) => Seq::empty(),
                Ok(body) => match framing.messages_from(body, 0, ctx.sizes(), rest) {
                    Err(_) => Seq::empty(),
                    Ok(more) => seq![(address, len)] + followed(
                        ctx,
                        framing,
                        more,
                        visited.insert(address),
                        blocks + 1,
                    ),
                },
            }
        }
    }
}

/// Behind the first `len` bytes at `address` stands their checksum.
pub open spec fn sealed_at(ctx: CtxView, address: u64, len: int) -> bool {
    ctx.fetch(address, len + 4) matches Ok(block) && u32_in(block, len) == metadata_checksum(
        block.take(len),
    )
}

proof fn lemma_followed(
    ctx: CtxView,
    framing: Framing,
    so_far: Gathered,
    visited: Set<u64>,
    blocks: nat,
)
    requires
        framing is V2,
    ensures
        forall|i: int|
            0 <= i < followed(ctx, framing, so_far, visited, blocks).len() ==> {
                let (address, len) = #[trigger] followed(ctx, framing, so_far, visited, blocks)[i];
                len >= 8 && sealed_at(ctx, address, len - 4)
            },
    decreases MAX_CONTINUATION_BLOCKS - blocks,
{
    if so_far.queue.len() > 0 && blocks < MAX_CONTINUATION_BLOCKS && !visited.contains(
        so_far.queue.last().0,
    ) {
        let (address, len) = so_far.queue.last();
        let rest = Gathered { messages: so_far.messages, queue: so_far.queue.drop_last() };
        match block_body(ctx, framing, address, len) {
            Err(_) => {},
            Ok(body) => match framing.messages_from(body, 0, ctx.sizes(), rest) {
                Err(_) => {},
                Ok(more) => {
                    lemma_followed(ctx, framing, more, visited.insert(address), blocks + 1);
                    let later = followed(ctx, framing, more, visited.insert(address), blocks + 1);
                    let all = followed(ctx, framing, so_far, visited, blocks);
                    assert(all == seq![(address, len)] + later);
                    assert forall|i: int| 0 <= i < all.len() implies {
                        let (address, len) = #[trigger] all[i];
                        len >= 8 && sealed_at(ctx, address, len - 4)
                    } by {
                        if i > 0 {
                            assert(all[i] == later[i - 1]);
                        }
                    }
                },
            },
        }
    }
}

/// A version 2 header that was read carries the checksum of its first block, which
/// covers the prefix and the message area, and of every continuation block.
pub proof fn version_two_headers_pass_their_checksum(ctx: CtxView, address: u64)
    requires
        header_at(ctx, address) is Ok,
        header_at(ctx, address)->Ok_0.version == 2,
    ensures
        ({
            let prefix = prefix_v2(
                ctx.fetch_upto(address, MAX_PREFIX_LEN as int)->Ok_0,
            )->Ok_0.0;
            let len = prefix.len + prefix.chunk_len;
            let area = ctx.fetch(address, len + 4)->Ok_0.subrange(prefix.len, len);
            let none = Gathered { messages: Seq::empty(), queue: Seq::empty() };
            let first = prefix.framing.messages_from(area, 0, ctx.sizes(), none)->Ok_0;
            let blocks = followed(ctx, prefix.framing, first, Set::empty().insert(address), 0);
            &&& sealed_at(ctx, address, len)
            &&& follow(ctx, prefix.framing, first, Set::empty().insert(address), 0) == Ok::<
                _,
                ErrorView,
            >(header_at(ctx, address)->Ok_0.messages)
            &&& forall|i: int|
                0 <= i < blocks.len() ==> {
                    let (at, len) = #[trigger] blocks[i];
                    len >= 8 && sealed_at(ctx, at, len - 4)
                }
        }),
{
    let prefix = prefix_v2(ctx.fetch_upto(address, MAX_PREFIX_LEN as int)->Ok_0)->Ok_0.0;
    let len = prefix.len + prefix.chunk_len;
    let area = ctx.fetch(address, len + 4)->Ok_0.subrange(prefix.len, len);
    let none = Gathered { messages: Seq::empty(), queue: Seq::empty() };
    let first = prefix.framing.messages_from(area, 0, ctx.sizes(), none)->Ok_0;
    lemma_followed(ctx, prefix.framing, first, Set::empty().insert(address), 0);
}

} // verus!
