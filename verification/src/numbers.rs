//! Numbers in a block of bytes.

use vstd::prelude::*;
use vstd::slice::slice_subrange;

use crate::attributes::keep;
#[allow(unused_imports)]
use crate::attributes::kept;
use crate::bytes::from_le;
#[allow(unused_imports)]
use crate::bytes::{
    le_value, lemma_le_value_bound, lemma_pow256_monotonic, lemma_pow256_values, pow256,
};
use crate::element::{convert, Element, Scalar};
#[allow(unused_imports)]
use crate::element::converted;
#[allow(unused_imports)]
use crate::float::{F32, F64};

verus! {

/// How a number is stored.
#[derive(Debug, Clone, Copy, PartialEq, Eq, Structural)]
pub enum Kind {
    /// An integer without sign.
    Unsigned,
    /// An integer in two's complement.
    Signed,
    /// An IEEE float.
    Float,
}

/// Whether numbers of a kind come in `width` bytes.
pub open spec fn comes_in(kind: Kind, width: nat) -> bool {
    match kind {
        Kind::Float => width == 4 || width == 8,
        _ => 0 < width <= 8,
    }
}

/// The number that a bit pattern of `width` bytes stands for.
pub open spec fn scalar_of(kind: Kind, width: nat, pattern: u64) -> Scalar {
    match kind {
        Kind::Unsigned => Scalar::Unsigned(pattern),
        Kind::Signed => Scalar::Signed(kept(pattern as nat, width, true) as i64),
        Kind::Float => if width == 4 {
            Scalar::Float(pattern as u32)
        } else {
            Scalar::Double(pattern)
        },
    }
}

/// The bit pattern of number `i` of a block, least significant byte first.
pub open spec fn pattern_at(bytes: Seq<u8>, width: nat, i: int) -> u64 {
    le_value(bytes.subrange(i * width, (i + 1) * width)) as u64
}

/// The numbers of a block, each as `T`. Bytes behind the last whole number do
/// not count.
pub open spec fn numbers_of<T: Element>(kind: Kind, width: nat, bytes: Seq<u8>) -> Seq<T> {
    Seq::new(
        bytes.len() / width,
        |i: int| converted::<T>(scalar_of(kind, width, pattern_at(bytes, width, i))),
    )
}

fn to_scalar(kind: Kind, width: usize, pattern: u64) -> (r: Scalar)
    requires
        comes_in(kind, width as nat),
        pattern < pow256(width as nat),
    ensures
        r == scalar_of(kind, width as nat, pattern),
{
    match kind {
        Kind::Unsigned => Scalar::Unsigned(pattern),
        Kind::Signed => Scalar::Signed(keep(pattern, width as u32, true)),
        Kind::Float => if width == 4 {
            Scalar::Float(pattern as u32)
        } else {
            Scalar::Double(pattern)
        },
    }
}

/// Number `i` of a block lies in it, and its bit pattern fits its width.
proof fn lemma_number(bytes: Seq<u8>, width: nat, i: int)
    requires
        0 < width <= 8,
        0 <= i < bytes.len() / width,
    ensures
        0 <= i * width,
        i * width + width == (i + 1) * width <= bytes.len(),
        le_value(bytes.subrange(i * width, (i + 1) * width)) < pow256(width) <= u64::MAX + 1,
{
    let (n, w) = (bytes.len() as int, width as int);
    let q = n / w;
    vstd::arithmetic::div_mod::lemma_fundamental_div_mod(n, w);
    assert(0 <= i * w && i * w + w == (i + 1) * w <= n) by (nonlinear_arith)
        requires
            n == w * q + n % w,
            0 <= n % w,
            0 <= i,
            i + 1 <= q,
            w > 0,
    ;
    lemma_le_value_bound(bytes.subrange(i * w, (i + 1) * w));
    lemma_pow256_monotonic(width, 8);
    lemma_pow256_values();
}

/// The numbers of a block, each as `T`. Bytes behind the last whole number do
/// not count.
pub fn to_numbers<T: Element>(kind: Kind, width: usize, bytes: &[u8]) -> (r: Vec<T>)
    requires
        comes_in(kind, width as nat),
    ensures
        r@ == numbers_of::<T>(kind, width as nat, bytes@),
{
    let ghost want = numbers_of::<T>(kind, width as nat, bytes@);
    let count: usize = bytes.len() / width;
    let mut out: Vec<T> = Vec::new();
    while out.len() < count
        invariant
            comes_in(kind, width as nat),
            want == numbers_of::<T>(kind, width as nat, bytes@),
            count == want.len() == bytes@.len() / width as nat,
            out@.len() <= count,
            out@ == want.take(out@.len() as int),
        decreases count - out@.len(),
    {
        let i: usize = out.len();
        proof {
            lemma_number(bytes@, width as nat, i as int);
            assert(bytes.len() <= usize::MAX);
        }
        let pattern: u64 = from_le(slice_subrange(bytes, i * width, i * width + width));
        out.push(convert(to_scalar(kind, width, pattern)));
        assert(out@ =~= want.take(out@.len() as int));
    }
    assert(out@ =~= want);
    out
}

/// A read of the stored type copies the values: the bits of each number are the
/// bits that the file stores.
pub proof fn the_stored_type_is_copied(pattern: u64)
    ensures
        pattern <= u8::MAX ==> {
            &&& converted::<u8>(scalar_of(Kind::Unsigned, 1, pattern)).pattern() == pattern
            &&& converted::<i8>(scalar_of(Kind::Signed, 1, pattern)).pattern() == pattern
        },
        pattern <= u16::MAX ==> {
            &&& converted::<u16>(scalar_of(Kind::Unsigned, 2, pattern)).pattern() == pattern
            &&& converted::<i16>(scalar_of(Kind::Signed, 2, pattern)).pattern() == pattern
        },
        pattern <= u32::MAX ==> {
            &&& converted::<u32>(scalar_of(Kind::Unsigned, 4, pattern)).pattern() == pattern
            &&& converted::<i32>(scalar_of(Kind::Signed, 4, pattern)).pattern() == pattern
            &&& converted::<F32>(scalar_of(Kind::Float, 4, pattern)).pattern() == pattern
        },
        converted::<u64>(scalar_of(Kind::Unsigned, 8, pattern)).pattern() == pattern,
        converted::<i64>(scalar_of(Kind::Signed, 8, pattern)).pattern() == pattern,
        converted::<F64>(scalar_of(Kind::Float, 8, pattern)).pattern() == pattern,
{
    lemma_pow256_values();
    assert(forall|x: i8| x < 0 ==> #[trigger] (x as u8) == x + 0x100) by (bit_vector);
    assert(forall|x: i16| x < 0 ==> #[trigger] (x as u16) == x + 0x1_0000) by (bit_vector);
    assert(forall|x: i32| x < 0 ==> #[trigger] (x as u32) == x + 0x1_0000_0000) by (bit_vector);
    assert(forall|x: i64| x < 0 ==> #[trigger] (x as u64) == x + 0x1_0000_0000_0000_0000)
        by (bit_vector);
}

} // verus!
