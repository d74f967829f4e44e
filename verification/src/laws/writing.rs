//! Numbers and fields, as a writer puts them down.

use vstd::prelude::*;

#[allow(unused_imports)]
use crate::bytes::{be_value, le_value, pow256};
#[allow(unused_imports)]
use crate::classic::{be_u32_at, be_u64_at, number_at};
#[allow(unused_imports)]
use crate::checksum::metadata_checksum;
#[allow(unused_imports)]
use crate::context::CtxView;
#[allow(unused_imports)]
use crate::cursor::{
    address_at, address_required_at, all_ones, skip_at, take_at, u16_at, u16_in, u32_at, u32_in,
    u64_at, u8_at, uint_at, Parse, Sizes,
};
#[allow(unused_imports)]
use crate::error::ErrorView;
#[allow(unused_imports)]
use crate::objheader::checked;

verus! {

/// `n` in `width` bytes, the least significant first.
pub open spec fn le(n: nat, width: nat) -> Seq<u8>
    decreases width,
{
    if width == 0 {
        Seq::empty()
    } else {
        seq![(n % 256) as u8] + le(n / 256, (width - 1) as nat)
    }
}

/// `n` in `width` bytes, the most significant first.
pub open spec fn be(n: nat, width: nat) -> Seq<u8>
    decreases width,
{
    if width == 0 {
        Seq::empty()
    } else {
        be(n / 256, (width - 1) as nat).push((n % 256) as u8)
    }
}

/// `n` bytes that say nothing.
pub open spec fn blank(n: nat) -> Seq<u8> {
    Seq::new(n, |i: int| 0u8)
}

/// `b` holds the bytes `s` at `p`.
pub open spec fn holds(b: Seq<u8>, p: int, s: Seq<u8>) -> bool {
    0 <= p && p + s.len() <= b.len() && b.subrange(p, p + s.len() as int) == s
}

pub broadcast proof fn lemma_holds_both(b: Seq<u8>, p: int, s: Seq<u8>, t: Seq<u8>)
    ensures
        #[trigger] holds(b, p, s + t) ==> holds(b, p, s) && holds(b, p + s.len(), t),
{
    if holds(b, p, s + t) {
        let whole = b.subrange(p, p + (s + t).len() as int);
        assert(b.subrange(p, p + s.len() as int) =~= whole.take(s.len() as int));
        assert((s + t).take(s.len() as int) =~= s);
        let q = p + s.len();
        assert(b.subrange(q, q + t.len() as int) =~= whole.skip(s.len() as int));
        assert((s + t).skip(s.len() as int) =~= t);
    }
}

pub broadcast proof fn lemma_holds_one(b: Seq<u8>, p: int, x: u8)
    ensures
        #[trigger] holds(b, p, seq![x]) ==> b[p] == x && u8_at(b, p) == Parse::<u8>::Ok((x, p + 1)),
{
    if holds(b, p, seq![x]) {
        assert(b.subrange(p, p + 1)[0] == x);
    }
}

pub broadcast proof fn lemma_holds_taken(b: Seq<u8>, p: int, s: Seq<u8>)
    ensures
        #[trigger] holds(b, p, s) ==> take_at(b, p, s.len() as int) == Parse::<Seq<u8>>::Ok(
            (s, p + s.len() as int),
        ) && skip_at(b, p, s.len() as int) == Parse::<()>::Ok(((), p + s.len() as int)),
{
}

pub broadcast proof fn lemma_le_len(n: nat, width: nat)
    ensures
        (#[trigger] le(n, width)).len() == width,
    decreases width,
{
    if width > 0 {
        lemma_le_len(n / 256, (width - 1) as nat);
    }
}

pub broadcast proof fn lemma_be_len(n: nat, width: nat)
    ensures
        (#[trigger] be(n, width)).len() == width,
    decreases width,
{
    if width > 0 {
        lemma_be_len(n / 256, (width - 1) as nat);
    }
}

pub broadcast proof fn lemma_blank_len(n: nat)
    ensures
        (#[trigger] blank(n)).len() == n,
{
}

/// A number that fits is read back, the least significant byte first.
pub proof fn lemma_le_read(n: nat, width: nat)
    requires
        n < pow256(width),
    ensures
        le_value(le(n, width)) == n,
    decreases width,
{
    if width > 0 {
        let rest = le(n / 256, (width - 1) as nat);
        lemma_le_len(n / 256, (width - 1) as nat);
        assert(n / 256 < pow256((width - 1) as nat)) by (nonlinear_arith)
            requires
                n < 256 * pow256((width - 1) as nat),
        ;
        lemma_le_read(n / 256, (width - 1) as nat);
        let all = le(n, width);
        assert(all[0] == (n % 256) as u8);
        assert(all.skip(1) =~= rest);
        assert(n == 256 * (n / 256) + n % 256);
    }
}

/// A number that fits is read back, the most significant byte first.
pub proof fn lemma_be_read(n: nat, width: nat)
    requires
        n < pow256(width),
    ensures
        be_value(be(n, width)) == n,
    decreases width,
{
    if width > 0 {
        let rest = be(n / 256, (width - 1) as nat);
        assert(n / 256 < pow256((width - 1) as nat)) by (nonlinear_arith)
            requires
                n < 256 * pow256((width - 1) as nat),
        ;
        lemma_be_read(n / 256, (width - 1) as nat);
        let all = be(n, width);
        assert(all.drop_last() =~= rest);
        assert(n == 256 * (n / 256) + n % 256);
    }
}

/// Two bytes read back as the number they were written for.
pub broadcast proof fn lemma_holds_u16(b: Seq<u8>, p: int, n: nat)
    requires
        n <= u16::MAX,
    ensures
        #[trigger] holds(b, p, le(n, 2)) ==> u16_at(b, p) == Parse::<u16>::Ok((n as u16, p + 2))
            && u16_in(b, p) == n,
{
    crate::bytes::lemma_pow256_values();
    lemma_le_len(n, 2);
    lemma_le_read(n, 2);
}

/// Four bytes read back as the number they were written for.
pub broadcast proof fn lemma_holds_u32(b: Seq<u8>, p: int, n: nat)
    requires
        n <= u32::MAX,
    ensures
        #[trigger] holds(b, p, le(n, 4)) ==> u32_at(b, p) == Parse::<u32>::Ok((n as u32, p + 4))
            && u32_in(b, p) == n,
{
    crate::bytes::lemma_pow256_values();
    lemma_le_len(n, 4);
    lemma_le_read(n, 4);
}

/// Eight bytes read back as the number they were written for.
pub broadcast proof fn lemma_holds_u64(b: Seq<u8>, p: int, n: nat)
    requires
        n <= u64::MAX,
    ensures
        #[trigger] holds(b, p, le(n, 8)) ==> u64_at(b, p) == Parse::<u64>::Ok((n as u64, p + 8)),
{
    crate::bytes::lemma_pow256_values();
    lemma_le_len(n, 8);
    lemma_le_read(n, 8);
}

/// A field of any width up to eight bytes reads back as the number it was written
/// for.
pub broadcast proof fn lemma_holds_uint(b: Seq<u8>, p: int, n: nat, width: u8)
    requires
        n < pow256(width as nat),
        width <= 8,
    ensures
        #[trigger] holds(b, p, le(n, width as nat)) ==> uint_at(b, p, width) == Parse::<u64>::Ok(
            (n as u64, p + width),
        ),
{
    crate::bytes::lemma_pow256_values();
    lemma_le_len(n, width as nat);
    lemma_le_read(n, width as nat);
}

/// Four bytes, the most significant first, read back as the number they were written
/// for.
pub broadcast proof fn lemma_holds_be_u32(b: Seq<u8>, p: int, n: nat)
    requires
        n <= u32::MAX,
    ensures
        #[trigger] holds(b, p, be(n, 4)) ==> be_u32_at(b, p) == Parse::<u32>::Ok((n as u32, p + 4)),
{
    crate::bytes::lemma_pow256_values();
    lemma_be_len(n, 4);
    lemma_be_read(n, 4);
}

/// Eight bytes, the most significant first, read back as the number they were written
/// for.
pub broadcast proof fn lemma_holds_be_u64(b: Seq<u8>, p: int, n: nat)
    requires
        n <= u64::MAX,
    ensures
        #[trigger] holds(b, p, be(n, 8)) ==> be_u64_at(b, p) == Parse::<u64>::Ok((n as u64, p + 8)),
{
    crate::bytes::lemma_pow256_values();
    lemma_be_len(n, 8);
    lemma_be_read(n, 8);
}

// ── structures in a file ───────────────────────────────────────────────────

/// Pieces one behind the other.
pub open spec fn joined(parts: Seq<Seq<u8>>) -> Seq<u8>
    decreases parts.len(),
{
    if parts.len() == 0 {
        Seq::empty()
    } else {
        parts[0] + joined(parts.skip(1))
    }
}

/// The file holds the bytes `s` at the stored address `address`.
pub open spec fn stands_at(ctx: CtxView, address: u64, s: Seq<u8>) -> bool {
    let at = ctx.superblock.base_address + address;
    at + s.len() <= u64::MAX && s.len() <= usize::MAX && holds(ctx.image.bytes, at, s)
}

/// What stands at an address is what is read there.
pub proof fn lemma_stands(ctx: CtxView, address: u64, s: Seq<u8>)
    requires
        stands_at(ctx, address, s),
    ensures
        ctx.fetch(address, s.len() as int) == std::result::Result::<Seq<u8>, ErrorView>::Ok(s),
{
}

/// What stands in two parts, read part by part.
pub proof fn lemma_stands_both(ctx: CtxView, address: u64, s: Seq<u8>, t: Seq<u8>)
    requires
        stands_at(ctx, address, s + t),
    ensures
        stands_at(ctx, address, s),
        address + s.len() <= u64::MAX,
        stands_at(ctx, (address + s.len()) as u64, t),
{
    lemma_holds_both(ctx.image.bytes, ctx.superblock.base_address + address, s, t);
}

/// Bytes and their checksum behind them.
pub open spec fn sealed(s: Seq<u8>) -> Seq<u8> {
    s + le(metadata_checksum(s) as nat, 4)
}

/// Bytes that carry their checksum pass it.
pub proof fn lemma_sealed(s: Seq<u8>, what: Seq<char>)
    ensures
        sealed(s).len() == s.len() + 4,
        sealed(s).take(s.len() as int) == s,
        u32_in(sealed(s), s.len() as int) == metadata_checksum(s),
        checked(sealed(s), s.len() as int, what) is Ok,
        holds(sealed(s), 0, s),
{
    let n = s.len() as int;
    let t = le(metadata_checksum(s) as nat, 4);
    lemma_le_len(metadata_checksum(s) as nat, 4);
    assert(sealed(s).take(n) =~= s);
    assert(sealed(s).subrange(0, n) =~= s);
    assert(sealed(s).subrange(n, n + 4) =~= t);
    assert(holds(sealed(s), n, t));
    lemma_holds_u32(sealed(s), n, metadata_checksum(s) as nat);
}

/// An address that is there, or the mark of one that is not.
pub open spec fn address(a: Option<u64>, sizes: Sizes) -> Seq<u8> {
    match a {
        Some(n) => le(n as nat, sizes.offset as nat),
        None => le((pow256(sizes.offset as nat) - 1) as nat, sizes.offset as nat),
    }
}

/// The address can be written in the width that the file uses.
pub open spec fn addressable(a: Option<u64>, sizes: Sizes) -> bool {
    &&& 0 < sizes.offset <= 8
    &&& a matches Some(n) ==> n < pow256(sizes.offset as nat) - 1
}

/// An address is read back, and one that is not there as none.
pub proof fn lemma_holds_address(b: Seq<u8>, p: int, a: Option<u64>, sizes: Sizes)
    requires
        addressable(a, sizes),
        holds(b, p, address(a, sizes)),
    ensures
        address_at(b, p, sizes) == Parse::<Option<u64>>::Ok((a, p + sizes.offset)),
        address(a, sizes).len() == sizes.offset,
        a matches Some(n) ==> forall|what: Seq<char>| #[trigger]
            address_required_at(b, p, sizes, what) == Parse::<u64>::Ok((n, p + sizes.offset)),
{
    crate::bytes::lemma_pow256_values();
    let n = match a {
        Some(n) => n as nat,
        None => (pow256(sizes.offset as nat) - 1) as nat,
    };
    lemma_le_len(n, sizes.offset as nat);
    lemma_holds_uint(b, p, n, sizes.offset);
    crate::bytes::lemma_pow256_monotonic(sizes.offset as nat, 8);
    assert(all_ones(sizes.offset) == pow256(sizes.offset as nat) - 1);
}

pub broadcast group group_writing {
    lemma_holds_both,
    lemma_holds_one,
    lemma_holds_taken,
    lemma_le_len,
    lemma_be_len,
    lemma_blank_len,
    lemma_holds_u16,
    lemma_holds_u32,
    lemma_holds_u64,
    lemma_holds_uint,
    lemma_holds_be_u32,
    lemma_holds_be_u64,
}

} // verus!
