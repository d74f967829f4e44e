//! Object headers come back as they were written, block after block.

use vstd::prelude::*;

#[allow(unused_imports)]
use crate::bytes::pow256;
#[allow(unused_imports)]
use crate::context::CtxView;
#[allow(unused_imports)]
use crate::cursor::{address_required_at, length_at, u16_in, u32_in, u8_at, Parse, Sizes};
#[allow(unused_imports)]
use crate::error::ErrorView;
#[allow(unused_imports)]
use crate::laws::messages::lemma_flags;
#[allow(unused_imports)]
use crate::laws::writing::{
    address, addressable, holds, le, lemma_holds_address, lemma_holds_both, lemma_holds_one,
    lemma_holds_taken, lemma_holds_u16, lemma_holds_u32, lemma_holds_uint, lemma_le_len,
    lemma_sealed, lemma_stands, lemma_stands_both, sealed, stands_at,
};
#[allow(unused_imports)]
use crate::objheader::{
    block_body, continuation, first_of, follow, header_at, header_v1, header_v2, message_type,
    prefix_v2, Frame, Framing, Gathered, HeaderMessageView, MessageType, ObjectHeaderView,
    PrefixV2, MAX_CONTINUATION_BLOCKS,
};

verus! {

// ── kinds of messages ──────────────────────────────────────────────────────

/// Each kind of message has its number.
pub proof fn a_message_is_known_by_its_number(code: u16)
    ensures
        message_type(code) is Nil <==> code == 0,
        message_type(code) is Dataspace <==> code == 1,
        message_type(code) is LinkInfo <==> code == 2,
        message_type(code) is Datatype <==> code == 3,
        message_type(code) is FillValueOld <==> code == 4,
        message_type(code) is FillValue <==> code == 5,
        message_type(code) is Link <==> code == 6,
        message_type(code) is ExternalDataFiles <==> code == 7,
        message_type(code) is DataLayout <==> code == 8,
        message_type(code) is Bogus <==> code == 9,
        message_type(code) is GroupInfo <==> code == 10,
        message_type(code) is FilterPipeline <==> code == 11,
        message_type(code) is Attribute <==> code == 12,
        message_type(code) is ObjectComment <==> code == 13,
        message_type(code) is ObjectModificationTimeOld <==> code == 14,
        message_type(code) is SharedMessageTable <==> code == 15,
        message_type(code) is ObjectHeaderContinuation <==> code == 16,
        message_type(code) is SymbolTable <==> code == 17,
        message_type(code) is ObjectModificationTime <==> code == 18,
        message_type(code) is BtreeKValues <==> code == 19,
        message_type(code) is DriverInfo <==> code == 20,
        message_type(code) is AttributeInfo <==> code == 21,
        message_type(code) is ObjectReferenceCount <==> code == 22,
        message_type(code) is Unknown <==> code > 22,
        code > 22 ==> message_type(code) == MessageType::Unknown(code),
{
}

/// A message is shared where bit 1 of its flags is set.
pub proof fn a_shared_message_is_known_by_its_flags(m: HeaderMessageView)
    ensures
        m.shared() <==> (m.flags / 2) % 2 == 1,
{
    lemma_flags(m.flags);
}

// ── a block of messages ────────────────────────────────────────────────────

/// One entry of a block: a message, padding, or a pointer to the next block.
pub enum Item {
    Message { code: u16, flags: u8, order: Option<u16>, data: Seq<u8> },
    Padding { flags: u8, order: Option<u16>, data: Seq<u8> },
    Next { flags: u8, order: Option<u16>, at: u64, len: u64, rest: Seq<u8> },
}

/// The number of an entry's kind.
pub open spec fn code_of(item: Item) -> u16 {
    match item {
        Item::Message { code, .. } => code,
        Item::Padding { .. } => 0,
        Item::Next { .. } => 16,
    }
}

/// The flags of an entry.
pub open spec fn flags_of(item: Item) -> u8 {
    match item {
        Item::Message { flags, .. } => flags,
        Item::Padding { flags, .. } => flags,
        Item::Next { flags, .. } => flags,
    }
}

/// The creation order of an entry.
pub open spec fn order_of(item: Item) -> Option<u16> {
    match item {
        Item::Message { order, .. } => order,
        Item::Padding { order, .. } => order,
        Item::Next { order, .. } => order,
    }
}

/// The body of an entry.
pub open spec fn body_of(item: Item, sizes: Sizes) -> Seq<u8> {
    match item {
        Item::Message { data, .. } => data,
        Item::Padding { data, .. } => data,
        Item::Next { at, len, rest, .. } => address(Some(at), sizes) + (le(
            len as nat,
            sizes.length as nat,
        ) + rest),
    }
}

/// An entry as it stands in a block. A version 1 header gives its number two bytes and
/// leaves three unused; a version 2 header gives it one, and its creation order where
/// it tracks that.
pub open spec fn item_written(item: Item, framing: Framing, sizes: Sizes) -> Seq<u8> {
    let body = body_of(item, sizes);
    match framing {
        Framing::V1 => le(code_of(item) as nat, 2) + (le(body.len(), 2) + (seq![flags_of(item)] + (
        seq![0u8, 0u8, 0u8] + body))),
        Framing::V2 { tracks_creation_order } => seq![code_of(item) as u8] + (le(body.len(), 2) + (
        seq![flags_of(item)] + (if tracks_creation_order {
            le(order_of(item)->Some_0 as nat, 2)
        } else {
            Seq::empty()
        } + body))),
    }
}

/// The entry can be written.
pub open spec fn item_fits(item: Item, framing: Framing, sizes: Sizes) -> bool {
    &&& body_of(item, sizes).len() <= u16::MAX
    &&& match framing {
        Framing::V1 => order_of(item) is None,
        Framing::V2 { tracks_creation_order } => code_of(item) <= 255 && (order_of(item) is Some
            <==> tracks_creation_order),
    }
    &&& item matches Item::Message { code, .. } ==> code != 0 && code != 16
    &&& item matches Item::Next { at, len, .. } ==> {
        &&& addressable(Some(at), sizes)
        &&& 0 < sizes.length <= 8
        &&& len < pow256(sizes.length as nat)
    }
}

/// A block of entries.
pub open spec fn block_written(items: Seq<Item>, framing: Framing, sizes: Sizes) -> Seq<u8>
    decreases items.len(),
{
    if items.len() == 0 {
        Seq::empty()
    } else {
        item_written(items[0], framing, sizes) + block_written(items.skip(1), framing, sizes)
    }
}

/// The entries can be written.
pub open spec fn all_fit(items: Seq<Item>, framing: Framing, sizes: Sizes) -> bool {
    forall|i: int| 0 <= i < items.len() ==> item_fits(#[trigger] items[i], framing, sizes)
}

/// The messages of a block: everything but padding and pointers.
pub open spec fn messages_in(items: Seq<Item>) -> Seq<HeaderMessageView>
    decreases items.len(),
{
    if items.len() == 0 {
        Seq::empty()
    } else {
        match items[0] {
            Item::Message { code, flags, order, data } => seq![
                HeaderMessageView {
                    kind: message_type(code),
                    flags,
                    creation_order: order,
                    data,
                },
            ] + messages_in(items.skip(1)),
            _ => messages_in(items.skip(1)),
        }
    }
}

/// The blocks that a block points to.
pub open spec fn pointers_in(items: Seq<Item>) -> Seq<(u64, u64)>
    decreases items.len(),
{
    if items.len() == 0 {
        Seq::empty()
    } else {
        match items[0] {
            Item::Next { at, len, .. } => seq![(at, len)] + pointers_in(items.skip(1)),
            _ => pointers_in(items.skip(1)),
        }
    }
}

/// How many bytes stand before the body of an entry.
pub open spec fn head_len(framing: Framing) -> int {
    match framing {
        Framing::V1 => 8,
        Framing::V2 { tracks_creation_order } => if tracks_creation_order {
            6
        } else {
            4
        },
    }
}

proof fn lemma_item(b: Seq<u8>, p: int, item: Item, framing: Framing, sizes: Sizes)
    requires
        item_fits(item, framing, sizes),
        holds(b, p, item_written(item, framing, sizes)),
    ensures
        item_written(item, framing, sizes).len() == head_len(framing) + body_of(item, sizes).len(),
        framing.frame_at(b, p) == Some(
            Frame {
                code: code_of(item),
                flags: flags_of(item),
                creation_order: order_of(item),
                data: body_of(item, sizes),
                next: p + item_written(item, framing, sizes).len(),
            },
        ),
{
    let body = body_of(item, sizes);
    let f = flags_of(item);
    lemma_le_len(body.len(), 2);
    match framing {
        Framing::V1 => {
            let c = code_of(item) as nat;
            let pad = seq![0u8, 0u8, 0u8];
            lemma_le_len(c, 2);
            lemma_holds_both(b, p, le(c, 2), le(body.len(), 2) + (seq![f] + (pad + body)));
            lemma_holds_u16(b, p, c);
            lemma_holds_both(b, p + 2, le(body.len(), 2), seq![f] + (pad + body));
            lemma_holds_u16(b, p + 2, body.len());
            lemma_holds_both(b, p + 4, seq![f], pad + body);
            lemma_holds_one(b, p + 4, f);
            lemma_holds_both(b, p + 5, pad, body);
        },
        Framing::V2 { tracks_creation_order } => {
            let c = code_of(item) as u8;
            let o = if tracks_creation_order {
                le(order_of(item)->Some_0 as nat, 2)
            } else {
                Seq::empty()
            };
            lemma_holds_both(b, p, seq![c], le(body.len(), 2) + (seq![f] + (o + body)));
            lemma_holds_one(b, p, c);
            lemma_holds_both(b, p + 1, le(body.len(), 2), seq![f] + (o + body));
            lemma_holds_u16(b, p + 1, body.len());
            lemma_holds_both(b, p + 3, seq![f], o + body);
            lemma_holds_one(b, p + 3, f);
            lemma_holds_both(b, p + 4, o, body);
            if tracks_creation_order {
                lemma_le_len(order_of(item)->Some_0 as nat, 2);
                lemma_holds_u16(b, p + 4, order_of(item)->Some_0 as nat);
            }
        },
    }
}

proof fn lemma_next(at: u64, len: u64, rest: Seq<u8>, sizes: Sizes)
    requires
        addressable(Some(at), sizes),
        0 < sizes.length <= 8,
        len < pow256(sizes.length as nat),
    ensures
        continuation(
            address(Some(at), sizes) + (le(len as nat, sizes.length as nat) + rest),
            sizes,
        ) == std::result::Result::<(u64, u64), ErrorView>::Ok((at, len)),
{
    let n = le(len as nat, sizes.length as nat);
    let b = address(Some(at), sizes) + (n + rest);
    assert(b.subrange(0, b.len() as int) =~= b);
    assert(holds(b, 0, b));
    lemma_le_len(len as nat, sizes.length as nat);
    lemma_holds_both(b, 0, address(Some(at), sizes), n + rest);
    lemma_holds_address(b, 0, Some(at), sizes);
    lemma_holds_both(b, sizes.offset as int, n, rest);
    lemma_holds_uint(b, sizes.offset as int, len as nat, sizes.length);
    assert(address_required_at(b, 0, sizes, "object header continuation"@) == Parse::<u64>::Ok(
        (at, sizes.offset as int),
    ));
}

proof fn lemma_block(
    b: Seq<u8>,
    p: int,
    items: Seq<Item>,
    framing: Framing,
    sizes: Sizes,
    so_far: Gathered,
)
    requires
        all_fit(items, framing, sizes),
        holds(b, p, block_written(items, framing, sizes)),
        b.len() - (p + block_written(items, framing, sizes).len()) < head_len(framing),
    ensures
        framing.messages_from(b, p, sizes, so_far) == std::result::Result::<
            Gathered,
            ErrorView,
        >::Ok(
            Gathered {
                messages: so_far.messages + messages_in(items),
                queue: so_far.queue + pointers_in(items),
            },
        ),
    decreases items.len(),
{
    if items.len() > 0 {
        let item = items[0];
        let rest = items.skip(1);
        assert(item_fits(item, framing, sizes));
        lemma_holds_both(
            b,
            p,
            item_written(item, framing, sizes),
            block_written(rest, framing, sizes),
        );
        lemma_item(b, p, item, framing, sizes);
        let q = p + item_written(item, framing, sizes).len();
        assert(all_fit(rest, framing, sizes)) by {
            assert forall|i: int| 0 <= i < rest.len() implies item_fits(
                #[trigger] rest[i],
                framing,
                sizes,
            ) by {
                assert(item_fits(items[i + 1], framing, sizes));
            }
        }
        let more = match item {
            Item::Message { code, flags, order, data } => Gathered {
                messages: so_far.messages.push(
                    HeaderMessageView {
                        kind: message_type(code),
                        flags,
                        creation_order: order,
                        data,
                    },
                ),
                queue: so_far.queue,
            },
            Item::Padding { .. } => so_far,
            Item::Next { at, len, rest, .. } => {
                lemma_next(at, len, rest, sizes);
                Gathered { messages: so_far.messages, queue: so_far.queue.push((at, len)) }
            },
        };
        lemma_block(b, q, rest, framing, sizes, more);
        assert(more.messages + messages_in(rest) =~= so_far.messages + messages_in(items));
        assert(more.queue + pointers_in(rest) =~= so_far.queue + pointers_in(items));
    } else {
        assert(so_far.messages + messages_in(items) =~= so_far.messages);
        assert(so_far.queue + pointers_in(items) =~= so_far.queue);
    }
}

/// A block of a header gives its messages in order, and the blocks that it points to.
pub proof fn a_block_gives_its_messages(
    items: Seq<Item>,
    gap: Seq<u8>,
    framing: Framing,
    sizes: Sizes,
)
    requires
        all_fit(items, framing, sizes),
        gap.len() < head_len(framing),
    ensures
        framing.messages_from(
            block_written(items, framing, sizes) + gap,
            0,
            sizes,
            Gathered { messages: Seq::empty(), queue: Seq::empty() },
        ) == std::result::Result::<Gathered, ErrorView>::Ok(
            Gathered { messages: messages_in(items), queue: pointers_in(items) },
        ),
{
    let s = block_written(items, framing, sizes);
    let b = s + gap;
    assert(b.subrange(0, s.len() as int) =~= s);
    let none = Gathered { messages: Seq::empty(), queue: Seq::empty() };
    lemma_block(b, 0, items, framing, sizes, none);
    assert(none.messages + messages_in(items) =~= messages_in(items));
    assert(none.queue + pointers_in(items) =~= pointers_in(items));
}

// ── a header ───────────────────────────────────────────────────────────────

/// A block behind the first, where it stands, and how long it is.
pub struct Block {
    pub at: u64,
    pub len: u64,
    pub items: Seq<Item>,
    pub gap: Seq<u8>,
}

/// The bytes of a block behind the first. A version 2 header starts it with a signature
/// and ends it with a checksum.
pub open spec fn continued_written(block: Block, framing: Framing, sizes: Sizes) -> Seq<u8> {
    let body = block_written(block.items, framing, sizes) + block.gap;
    match framing {
        Framing::V1 => body,
        Framing::V2 { .. } => sealed(seq![0x4fu8, 0x43u8, 0x48u8, 0x4bu8] + body),
    }
}

/// The blocks stand in the file, each pointed to by the one before it and by nothing
/// else.
pub open spec fn chained(
    ctx: CtxView,
    framing: Framing,
    pointers: Seq<(u64, u64)>,
    blocks: Seq<Block>,
    visited: Set<u64>,
) -> bool
    decreases blocks.len(),
{
    if blocks.len() == 0 {
        pointers.len() == 0
    } else {
        let block = blocks[0];
        &&& pointers == seq![(block.at, block.len)]
        &&& !visited.contains(block.at)
        &&& all_fit(block.items, framing, ctx.sizes())
        &&& block.gap.len() < head_len(framing)
        &&& continued_written(block, framing, ctx.sizes()).len() == block.len
        &&& stands_at(ctx, block.at, continued_written(block, framing, ctx.sizes()))
        &&& chained(
            ctx,
            framing,
            pointers_in(block.items),
            blocks.skip(1),
            visited.insert(block.at),
        )
    }
}

/// The messages of the blocks, one block after the other.
pub open spec fn messages_of(blocks: Seq<Block>) -> Seq<HeaderMessageView>
    decreases blocks.len(),
{
    if blocks.len() == 0 {
        Seq::empty()
    } else {
        messages_in(blocks[0].items) + messages_of(blocks.skip(1))
    }
}

proof fn lemma_continued(ctx: CtxView, framing: Framing, block: Block)
    requires
        all_fit(block.items, framing, ctx.sizes()),
        continued_written(block, framing, ctx.sizes()).len() == block.len,
        stands_at(ctx, block.at, continued_written(block, framing, ctx.sizes())),
    ensures
        block_body(ctx, framing, block.at, block.len) == std::result::Result::<
            Seq<u8>,
            ErrorView,
        >::Ok(block_written(block.items, framing, ctx.sizes()) + block.gap),
{
    let body = block_written(block.items, framing, ctx.sizes()) + block.gap;
    let b = continued_written(block, framing, ctx.sizes());
    lemma_stands(ctx, block.at, b);
    match framing {
        Framing::V1 => {},
        Framing::V2 { .. } => {
            let sig = seq![0x4fu8, 0x43u8, 0x48u8, 0x4bu8];
            assert(crate::objheader::OCHK_SIGNATURE@ =~= sig);
            lemma_sealed(sig + body, "object header continuation"@);
            lemma_holds_both(b, 0, sig, body);
            assert(b.take(4) =~= b.subrange(0, 4));
            assert(b.subrange(4, b.len() - 4) =~= b.subrange(4, 4 + body.len() as int));
        },
    }
}

proof fn lemma_chain(
    ctx: CtxView,
    framing: Framing,
    so_far: Gathered,
    blocks: Seq<Block>,
    visited: Set<u64>,
    n: nat,
)
    requires
        chained(ctx, framing, so_far.queue, blocks, visited),
        n + blocks.len() <= 4096,
    ensures
        follow(ctx, framing, so_far, visited, n) == std::result::Result::<
            Seq<HeaderMessageView>,
            ErrorView,
        >::Ok(so_far.messages + messages_of(blocks)),
    decreases blocks.len(),
{
    if blocks.len() == 0 {
        assert(so_far.messages + messages_of(blocks) =~= so_far.messages);
    } else {
        let block = blocks[0];
        let sizes = ctx.sizes();
        lemma_continued(ctx, framing, block);
        let s = block_written(block.items, framing, sizes);
        let body = s + block.gap;
        assert(body.subrange(0, s.len() as int) =~= s);
        let rest = Gathered { messages: so_far.messages, queue: so_far.queue.drop_last() };
        assert(so_far.queue.last() == (block.at, block.len));
        assert(rest.queue =~= Seq::empty());
        lemma_block(body, 0, block.items, framing, sizes, rest);
        let more = Gathered {
            messages: so_far.messages + messages_in(block.items),
            queue: pointers_in(block.items),
        };
        assert(rest.queue + pointers_in(block.items) =~= pointers_in(block.items));
        lemma_chain(ctx, framing, more, blocks.skip(1), visited.insert(block.at), n + 1);
        assert(more.messages + messages_of(blocks.skip(1)) =~= so_far.messages + messages_of(
            blocks,
        ));
    }
}

/// The start of a version 1 header.
pub open spec fn early_prefix(reserved: u8, count: nat, references: nat, len: nat, gap: Seq<u8>) -> Seq<
    u8,
> {
    seq![1u8] + (seq![reserved] + (le(count, 2) + (le(references, 4) + (le(len, 4) + gap))))
}

proof fn lemma_early_prefix(
    reserved: u8,
    count: nat,
    references: nat,
    len: nat,
    gap: Seq<u8>,
)
    requires
        gap.len() == 4,
        len <= u32::MAX,
    ensures
        ({
            let b = early_prefix(reserved, count, references, len, gap);
            &&& b.len() == 16
            &&& b[0] == 1
            &&& u32_in(b, 8) == len
        }),
{
    let b = early_prefix(reserved, count, references, len, gap);
    let t3 = le(len, 4) + gap;
    let t2 = le(references, 4) + t3;
    let t1 = le(count, 2) + t2;
    lemma_le_len(len, 4);
    lemma_le_len(references, 4);
    lemma_le_len(count, 2);
    assert(b.subrange(0, b.len() as int) =~= b);
    assert(holds(b, 0, b));
    lemma_holds_both(b, 0, seq![1u8], seq![reserved] + t1);
    lemma_holds_one(b, 0, 1);
    lemma_holds_both(b, 1, seq![reserved], t1);
    lemma_holds_both(b, 2, le(count, 2), t2);
    lemma_holds_both(b, 4, le(references, 4), t3);
    lemma_holds_both(b, 8, le(len, 4), gap);
    lemma_holds_u32(b, 8, len);
}

/// A version 1 header gives the messages of all its blocks, in order.
#[verifier::spinoff_prover]
#[verifier::rlimit(40)]
pub proof fn an_early_header_gives_all_its_messages(
    ctx: CtxView,
    at: u64,
    reserved: u8,
    count: nat,
    references: nat,
    gap: Seq<u8>,
    first: Block,
    blocks: Seq<Block>,
)
    requires
        gap.len() == 4,
        first.at == at + 16,
        first.len <= u32::MAX,
        blocks.len() < 4096,
        stands_at(ctx, at, early_prefix(reserved, count, references, first.len as nat, gap)),
        chained(
            ctx,
            Framing::V1,
            seq![(first.at, first.len)],
            seq![first] + blocks,
            Set::empty(),
        ),
    ensures
        header_at(ctx, at) matches Ok(h) && h.address == at && h.version == 1 && h.messages
            == messages_in(first.items) + messages_of(blocks),
{
    let b = early_prefix(reserved, count, references, first.len as nat, gap);
    lemma_early_prefix(reserved, count, references, first.len as nat, gap);
    lemma_stands(ctx, at, b);
    let all = seq![first] + blocks;
    let start = Gathered { messages: Seq::empty(), queue: seq![(first.at, first.len)] };
    lemma_chain(ctx, Framing::V1, start, all, Set::empty(), 0);
    assert(all.skip(1) =~= blocks);
    assert(start.messages + messages_of(all) =~= messages_in(first.items) + messages_of(blocks));
    let probe = ctx.fetch_upto(at, 4)->Ok_0;
    assert(probe =~= ctx.fetch(at, 16)->Ok_0.take(4));
    assert(probe[0] == 1);
    assert(crate::objheader::OHDR_SIGNATURE@[0] == 0x4f);
}

/// What a version 2 header starts with.
pub struct Prefix {
    pub flags: u8,
    pub times: Seq<u8>,
    pub limits: Seq<u8>,
}

/// How wide the length of the first block is: bits 0 and 1 of the flags say.
pub open spec fn length_width(flags: u8) -> u8 {
    if flags % 4 == 0 {
        1
    } else if flags % 4 == 1 {
        2
    } else if flags % 4 == 2 {
        4
    } else {
        8
    }
}

/// The start of a version 2 header: times where bit 5 of the flags is set, limits on
/// attributes where bit 4 is.
pub open spec fn late_prefix(x: Prefix, len: nat) -> Seq<u8> {
    seq![0x4fu8, 0x48u8, 0x44u8, 0x52u8] + (seq![2u8] + (seq![x.flags] + (x.times + (x.limits + le(
        len,
        length_width(x.flags) as nat,
    )))))
}

/// The prefix can be written.
pub open spec fn prefix_fits(x: Prefix, len: nat) -> bool {
    &&& x.times.len() == if (x.flags / 32) % 2 == 1 {
        16nat
    } else {
        0nat
    }
    &&& x.limits.len() == if (x.flags / 16) % 2 == 1 {
        4nat
    } else {
        0nat
    }
    &&& len < pow256(length_width(x.flags) as nat)
}

proof fn lemma_late_prefix(b: Seq<u8>, x: Prefix, len: nat)
    requires
        prefix_fits(x, len),
        holds(b, 0, late_prefix(x, len)),
    ensures
        ({
            let n = late_prefix(x, len).len() as int;
            &&& n == 6 + x.times.len() + x.limits.len() + length_width(x.flags)
            &&& n <= 34
            &&& prefix_v2(b) == Parse::<PrefixV2>::Ok(
                (
                    PrefixV2 {
                        framing: Framing::V2 { tracks_creation_order: (x.flags / 4) % 2 == 1 },
                        len: n,
                        chunk_len: len as u64,
                    },
                    n,
                ),
            )
        }),
{
    let w = length_width(x.flags);
    let sig = seq![0x4fu8, 0x48u8, 0x44u8, 0x52u8];
    let n = le(len, w as nat);
    let t2 = x.limits + n;
    let t1 = x.times + t2;
    lemma_flags(x.flags);
    lemma_le_len(len, w as nat);
    assert(crate::objheader::OHDR_SIGNATURE@ =~= sig);
    lemma_holds_both(b, 0, sig, seq![2u8] + (seq![x.flags] + t1));
    lemma_holds_taken(b, 0, sig);
    lemma_holds_both(b, 4, seq![2u8], seq![x.flags] + t1);
    lemma_holds_one(b, 4, 2);
    lemma_holds_both(b, 5, seq![x.flags], t1);
    lemma_holds_one(b, 5, x.flags);
    lemma_holds_both(b, 6, x.times, t2);
    lemma_holds_taken(b, 6, x.times);
    let p = 6 + x.times.len() as int;
    lemma_holds_both(b, p, x.limits, n);
    lemma_holds_taken(b, p, x.limits);
    let q = p + x.limits.len() as int;
    lemma_holds_uint(b, q, len, w);
}

/// A version 2 header gives the messages of all its blocks, in order.
#[verifier::spinoff_prover]
pub proof fn a_late_header_gives_all_its_messages(
    ctx: CtxView,
    at: u64,
    x: Prefix,
    items: Seq<Item>,
    gap: Seq<u8>,
    blocks: Seq<Block>,
    framing: Framing,
)
    requires
        framing == (Framing::V2 { tracks_creation_order: (x.flags / 4) % 2 == 1 }),
        all_fit(items, framing, ctx.sizes()),
        gap.len() < head_len(framing),
        blocks.len() <= 4096,
        ({
            let body = block_written(items, framing, ctx.sizes()) + gap;
            &&& prefix_fits(x, body.len())
            &&& stands_at(ctx, at, sealed(late_prefix(x, body.len()) + body))
        }),
        chained(ctx, framing, pointers_in(items), blocks, Set::empty().insert(at)),
    ensures
        header_at(ctx, at) matches Ok(h) && h.address == at && h.version == 2 && h.messages
            == messages_in(items) + messages_of(blocks),
{
    let body = block_written(items, framing, ctx.sizes()) + gap;
    let head = late_prefix(x, body.len());
    let s = head + body;
    let b = sealed(s);
    lemma_stands(ctx, at, b);
    lemma_sealed(s, "object header"@);
    lemma_holds_both(b, 0, head, body);
    lemma_late_prefix(b, x, body.len());
    let n = head.len() as int;
    assert(b.subrange(n, n + body.len() as int) == body);
    let start = ctx.fetch_upto(at, 34)->Ok_0;
    let base = ctx.superblock.base_address + at;
    assert(ctx.fetch_upto(at, 34) is Ok);
    assert(start.subrange(0, n) =~= ctx.image.bytes.subrange(base, base + n));
    assert(b.subrange(0, n) =~= ctx.image.bytes.subrange(base, base + n));
    assert(holds(start, 0, head));
    lemma_late_prefix(start, x, body.len());
    a_block_gives_its_messages(items, gap, framing, ctx.sizes());
    let first = Gathered { messages: messages_in(items), queue: pointers_in(items) };
    lemma_chain(ctx, framing, first, blocks, Set::empty().insert(at), 0);
    let probe = ctx.fetch_upto(at, 4)->Ok_0;
    let sig = seq![0x4fu8, 0x48u8, 0x44u8, 0x52u8];
    assert(crate::objheader::OHDR_SIGNATURE@ =~= sig);
    assert(probe =~= b.subrange(0, 4));
    lemma_holds_both(b, 0, sig, seq![2u8] + (seq![x.flags] + (x.times + (x.limits + le(
        body.len(),
        length_width(x.flags) as nat,
    )))));
}

/// Looking for a kind of message finds the first of that kind.
pub proof fn the_first_message_of_a_kind_is_found(
    messages: Seq<HeaderMessageView>,
    kind: MessageType,
    i: int,
)
    requires
        0 <= i < messages.len(),
        messages[i].kind == kind,
        forall|j: int| 0 <= j < i ==> (#[trigger] messages[j]).kind != kind,
    ensures
        first_of(messages, kind) == Some(messages[i]),
    decreases i,
{
    if i > 0 {
        assert(messages[0].kind != kind);
        let rest = messages.skip(1);
        assert forall|j: int| 0 <= j < i - 1 implies (#[trigger] rest[j]).kind != kind by {
            assert(messages[j + 1].kind != kind);
        }
        the_first_message_of_a_kind_is_found(rest, kind, i - 1);
    }
}

/// A kind of message that is not there is not found.
pub proof fn a_missing_kind_is_not_found(messages: Seq<HeaderMessageView>, kind: MessageType)
    requires
        forall|j: int| 0 <= j < messages.len() ==> (#[trigger] messages[j]).kind != kind,
    ensures
        first_of(messages, kind) is None,
    decreases messages.len(),
{
    if messages.len() > 0 {
        assert(messages[0].kind != kind);
        let rest = messages.skip(1);
        assert forall|j: int| 0 <= j < rest.len() implies (#[trigger] rest[j]).kind != kind by {
            assert(messages[j + 1].kind != kind);
        }
        a_missing_kind_is_not_found(rest, kind);
    }
}

} // verus!
