//! Datatype messages, byte by byte.

use vstd::prelude::*;

#[allow(unused_imports)]
use crate::bytes::le_value;
#[allow(unused_imports)]
use crate::cursor::{take_at, u16_at, u32_at, u8_at, Parse};
#[allow(unused_imports)]
use crate::error::ErrorView;
#[allow(unused_imports)]
use crate::message::datatype::{
    class_at, datatype_at, fixed_point_at, floating_point_at, ByteOrder, CharSet, ClassView,
    DatatypeView, StringPad, VlenKind,
};

verus! {

// ── numbers, byte by byte ──────────────────────────────────────────────────

/// The number that two bytes spell, the least significant first.
pub open spec fn two(b: Seq<u8>, p: int) -> int {
    b[p] + 0x100 * b[p + 1]
}

/// The number that four bytes spell, the least significant first.
pub open spec fn four(b: Seq<u8>, p: int) -> int {
    b[p] + 0x100 * b[p + 1] + 0x1_0000 * b[p + 2] + 0x100_0000 * b[p + 3]
}

/// Bit `k` of a byte, where `weight` is two to the power `k`.
pub open spec fn bit_set(x: u8, weight: int) -> bool {
    (x as int / weight) % 2 == 1
}

pub proof fn lemma_two(b: Seq<u8>, p: int)
    requires
        0 <= p,
        p + 2 <= b.len(),
    ensures
        u16_at(b, p) == Parse::<u16>::Ok((two(b, p) as u16, p + 2)),
        0 <= two(b, p) <= u16::MAX,
{
    let s = b.subrange(p, p + 2);
    reveal_with_fuel(le_value, 3);
    assert(s.skip(1)[0] == b[p + 1]);
    assert(le_value(s) == two(b, p));
}

pub proof fn lemma_four(b: Seq<u8>, p: int)
    requires
        0 <= p,
        p + 4 <= b.len(),
    ensures
        u32_at(b, p) == Parse::<u32>::Ok((four(b, p) as u32, p + 4)),
        0 <= four(b, p) <= u32::MAX,
{
    let s = b.subrange(p, p + 4);
    reveal_with_fuel(le_value, 5);
    assert(s.skip(1)[0] == b[p + 1]);
    assert(s.skip(1).skip(1)[0] == b[p + 2]);
    assert(s.skip(1).skip(1).skip(1)[0] == b[p + 3]);
    assert(le_value(s) == four(b, p));
}

/// What the three bytes of class bits say.
pub proof fn lemma_class_bits(x: u8, y: u8, z: u8, bits: u32)
    requires
        bits == x + 0x100 * y + 0x1_0000 * z,
    ensures
        bits & 0x01 == x % 2,
        (bits & 0x08 != 0) == bit_set(x, 8),
        (bits & 0x40 != 0) == bit_set(x, 64),
        bits & 0x0F == x % 16,
        (bits >> 4) & 0x0F == x / 16,
        (bits >> 8) & 0x0F == y % 16,
        bits & 0xFF == x,
        (bits >> 8) & 0xFF == y,
        bits & 0xFFFF == x + 0x100 * y,
{
    assert(bits & 0x01 == x % 2 && ((bits & 0x08 != 0) == ((x / 8) % 2 == 1)) && ((bits & 0x40
        != 0) == ((x / 64) % 2 == 1)) && bits & 0x0F == x % 16 && (bits >> 4) & 0x0F == x / 16
        && (bits >> 8) & 0x0F == y % 16 && bits & 0xFF == x && (bits >> 8) & 0xFF == y && bits
        & 0xFFFF == x + 0x100 * y) by (bit_vector)
        requires
            bits == x + 0x100 * y + 0x1_0000 * z,
    ;
}

// ── the head of a message ──────────────────────────────────────────────────

/// A message starts with its version and class, three bytes of class bits, and the size
/// of an element; what follows belongs to the class.
pub open spec fn class_bits(b: Seq<u8>, p: int) -> int {
    b[p + 1] + 0x100 * b[p + 2] + 0x1_0000 * b[p + 3]
}

/// There is a whole head at `p`, of a version that is read.
pub open spec fn has_head(b: Seq<u8>, p: int) -> bool {
    0 <= p && p + 8 <= b.len() && 1 <= b[p] / 16 <= 4
}

/// What the head says goes into the datatype.
pub proof fn a_datatype_starts_with_its_head(b: Seq<u8>, p: int)
    requires
        has_head(b, p),
    ensures
        datatype_at(b, p) is Ok <==> class_at(
            b,
            p + 8,
            b[p] / 16,
            b[p] % 16,
            class_bits(b, p) as u32,
            four(b, p + 4) as u32,
        ) is Ok,
        datatype_at(b, p) matches Ok((d, q)) ==> {
            &&& d.version == b[p] / 16
            &&& d.size == four(b, p + 4)
            &&& class_at(
                b,
                p + 8,
                b[p] / 16,
                b[p] % 16,
                class_bits(b, p) as u32,
                four(b, p + 4) as u32,
            ) == Parse::<ClassView>::Ok((d.class, q))
        },
        datatype_at(b, p) matches Err(e) ==> class_at(
            b,
            p + 8,
            b[p] / 16,
            b[p] % 16,
            class_bits(b, p) as u32,
            four(b, p + 4) as u32,
        ) == Parse::<ClassView>::Err(e),
        0 <= class_bits(b, p) <= 0xFF_FFFF,
        0 <= four(b, p + 4) <= u32::MAX,
{
    let first = b[p];
    assert(first >> 4 == first / 16 && first & 0x0F == first % 16) by (bit_vector);
    lemma_four(b, p + 4);
}

/// A version that is not known is refused.
pub proof fn an_unknown_version_is_refused(b: Seq<u8>, p: int)
    requires
        0 <= p < b.len(),
        b[p] / 16 == 0 || b[p] / 16 > 4,
    ensures
        datatype_at(b, p) is Err,
{
    let first = b[p];
    assert(first >> 4 == first / 16) by (bit_vector);
}

// ── numbers ────────────────────────────────────────────────────────────────

/// Class 1 is a float. Bit 0 of the class bits says the byte order: clear for the least
/// significant byte first, set for the most significant. Bit 6 set would be the order
/// of a VAX, which is not read. The second byte of the class bits says where the sign is.
pub proof fn a_float_says_its_byte_order(b: Seq<u8>, p: int)
    requires
        has_head(b, p),
        b[p] % 16 == 1,
    ensures
        bit_set(b[p + 1], 64) ==> datatype_at(b, p) is Err,
        !bit_set(b[p + 1], 64) && p + 20 <= b.len() ==> datatype_at(b, p) is Ok,
        datatype_at(b, p) matches Ok((d, q)) ==> {
            &&& q == p + 20
            &&& d.size == four(b, p + 4)
            &&& (d.class matches ClassView::FloatingPoint {
                order,
                bit_offset,
                bit_precision,
                exponent_location,
                exponent_size,
                mantissa_location,
                mantissa_size,
                exponent_bias,
                sign_location,
            } && {
                &&& order is Little <==> b[p + 1] % 2 == 0
                &&& order is Big <==> b[p + 1] % 2 == 1
                &&& sign_location == b[p + 2]
                &&& bit_offset == two(b, p + 8)
                &&& bit_precision == two(b, p + 10)
                &&& exponent_location == b[p + 12]
                &&& exponent_size == b[p + 13]
                &&& mantissa_location == b[p + 14]
                &&& mantissa_size == b[p + 15]
                &&& exponent_bias == four(b, p + 16)
            })
        },
{
    a_datatype_starts_with_its_head(b, p);
    lemma_class_bits(b[p + 1], b[p + 2], b[p + 3], class_bits(b, p) as u32);
    if p + 10 <= b.len() {
        lemma_two(b, p + 8);
    }
    if p + 12 <= b.len() {
        lemma_two(b, p + 10);
    }
    if p + 20 <= b.len() {
        lemma_four(b, p + 16);
    }
}

/// Class 0 is an integer. Bit 0 of the class bits says the byte order: clear for the
/// least significant byte first, set for the most significant. Bit 3 is set where the
/// integer has a sign.
pub proof fn an_integer_says_its_byte_order_and_sign(b: Seq<u8>, p: int)
    requires
        has_head(b, p),
        b[p] % 16 == 0,
    ensures
        p + 12 <= b.len() ==> datatype_at(b, p) is Ok,
        datatype_at(b, p) matches Ok((d, q)) ==> {
            &&& q == p + 12
            &&& d.size == four(b, p + 4)
            &&& (d.class matches ClassView::FixedPoint {
                order,
                signed,
                bit_offset,
                bit_precision,
            } && {
                &&& order is Little <==> b[p + 1] % 2 == 0
                &&& order is Big <==> b[p + 1] % 2 == 1
                &&& signed <==> bit_set(b[p + 1], 8)
                &&& bit_offset == two(b, p + 8)
                &&& bit_precision == two(b, p + 10)
            })
        },
{
    a_datatype_starts_with_its_head(b, p);
    lemma_class_bits(b[p + 1], b[p + 2], b[p + 3], class_bits(b, p) as u32);
    if p + 10 <= b.len() {
        lemma_two(b, p + 8);
    }
    if p + 12 <= b.len() {
        lemma_two(b, p + 10);
    }
}

// ── text, references and what is opaque ────────────────────────────────────

/// Class 3 is a string of fixed length. The low half of the first byte of class bits
/// says how it is padded, the high half in which characters it is.
pub proof fn a_string_says_its_padding_and_characters(b: Seq<u8>, p: int)
    requires
        has_head(b, p),
        b[p] % 16 == 3,
    ensures
        datatype_at(b, p) is Ok <==> b[p + 1] % 16 <= 2 && b[p + 1] / 16 <= 1,
        datatype_at(b, p) matches Ok((d, q)) ==> {
            &&& q == p + 8
            &&& d.size == four(b, p + 4)
            &&& (d.class matches ClassView::String { pad, charset } && {
                &&& pad is NullTerminate <==> b[p + 1] % 16 == 0
                &&& pad is NullPad <==> b[p + 1] % 16 == 1
                &&& pad is SpacePad <==> b[p + 1] % 16 == 2
                &&& charset is Ascii <==> b[p + 1] / 16 == 0
                &&& charset is Utf8 <==> b[p + 1] / 16 == 1
            })
        },
{
    a_datatype_starts_with_its_head(b, p);
    lemma_class_bits(b[p + 1], b[p + 2], b[p + 3], class_bits(b, p) as u32);
}

/// Class 7 is a reference. The low half of the first byte of class bits says of which
/// kind.
pub proof fn a_reference_says_its_kind(b: Seq<u8>, p: int)
    requires
        has_head(b, p),
        b[p] % 16 == 7,
    ensures
        datatype_at(b, p) matches Ok((d, q)) && q == p + 8 && d.size == four(b, p + 4)
            && d.class == (ClassView::Reference { kind: b[p + 1] % 16 }),
{
    a_datatype_starts_with_its_head(b, p);
    lemma_class_bits(b[p + 1], b[p + 2], b[p + 3], class_bits(b, p) as u32);
}

} // verus!
