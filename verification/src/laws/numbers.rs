//! What happens to a number on its way from the file to its reader.

use vstd::prelude::*;

#[allow(unused_imports)]
use crate::attributes::{
    attribute_value, every_integer_survives, integer_at, numbers_keep_their_count,
    AttributeValueView,
};
#[allow(unused_imports)]
use crate::attributes::numbers_of as attribute_numbers;
#[allow(unused_imports)]
use crate::bytes::pow256;
#[allow(unused_imports)]
use crate::element::{converted, Element, Scalar};
#[allow(unused_imports)]
use crate::float::{
    digits, lemma_digits, lemma_exact, rounded, significand, truncated, unit, whole_part,
    whole_pattern, within, Format, F32, F64,
};
#[allow(unused_imports)]
use crate::laws::storage::is_big;
#[allow(unused_imports)]
use crate::laws::writing::{be, holds, le, lemma_be_len, lemma_le_len, lemma_le_read};
#[allow(unused_imports)]
use crate::message::datatype::{ClassView, DatatypeView};
#[allow(unused_imports)]
use crate::read::RawDataView;
#[allow(unused_imports)]
use crate::variable::numbers_as;
#[allow(unused_imports)]
use vstd::arithmetic::power2::{
    lemma2_to64, lemma2_to64_rest, lemma_pow2_adds, lemma_pow2_pos, lemma_pow2_strictly_increases,
    pow2,
};

verus! {

// ── integers ───────────────────────────────────────────────────────────────

/// The number is an integer.
pub open spec fn is_whole(s: Scalar) -> bool {
    s is Signed || s is Unsigned
}

/// The integer that a number is.
pub open spec fn whole_value(s: Scalar) -> int {
    match s {
        Scalar::Unsigned(v) => v as int,
        Scalar::Signed(v) => v as int,
        _ => 0,
    }
}

/// The attribute holds integers: `n` is number `i` of them.
pub open spec fn holds_integer(v: AttributeValueView, i: int, n: int) -> bool {
    match v {
        AttributeValueView::Schar(x) => i == 0 && n == x,
        AttributeValueView::Short(x) => i == 0 && n == x,
        AttributeValueView::Int(x) => i == 0 && n == x,
        AttributeValueView::Longlong(x) => i == 0 && n == x,
        AttributeValueView::Uchar(x) => i == 0 && n == x,
        AttributeValueView::Ushort(x) => i == 0 && n == x,
        AttributeValueView::Uint(x) => i == 0 && n == x,
        AttributeValueView::Ulonglong(x) => i == 0 && n == x,
        AttributeValueView::Schars(s) => 0 <= i < s.len() && n == s[i],
        AttributeValueView::Shorts(s) => 0 <= i < s.len() && n == s[i],
        AttributeValueView::Ints(s) => 0 <= i < s.len() && n == s[i],
        AttributeValueView::Longlongs(s) => 0 <= i < s.len() && n == s[i],
        AttributeValueView::Uchars(s) => 0 <= i < s.len() && n == s[i],
        AttributeValueView::Ushorts(s) => 0 <= i < s.len() && n == s[i],
        AttributeValueView::Uints(s) => 0 <= i < s.len() && n == s[i],
        AttributeValueView::Ulonglongs(s) => 0 <= i < s.len() && n == s[i],
        _ => false,
    }
}

/// The numbers of an attribute are its integers, sign and all: number `i` of the list
/// is the integer that the attribute holds at `i`, and the first number is the first
/// of them.
pub proof fn the_numbers_of_an_attribute_are_its_integers(v: AttributeValueView, i: int, n: int)
    requires
        holds_integer(v, i, n),
    ensures
        v.numbers() is Some,
        v.numbers()->Some_0.len() == v.count(),
        0 <= i < v.count(),
        is_whole(v.numbers()->Some_0[i]),
        whole_value(v.numbers()->Some_0[i]) == n,
        integer_at(v, i) == n,
        i == 0 ==> v.first_number() is Some && is_whole(v.first_number()->Some_0) && whole_value(
            v.first_number()->Some_0,
        ) == n,
{
}

/// The numbers of a float attribute are its floats, bit for bit.
pub proof fn the_numbers_of_an_attribute_are_its_floats(v: AttributeValueView)
    ensures
        v matches AttributeValueView::Float(x) ==> v.numbers() == Some(seq![Scalar::Float(x)])
            && v.first_number() == Some(Scalar::Float(x)),
        v matches AttributeValueView::Double(x) ==> v.numbers() == Some(seq![Scalar::Double(x)])
            && v.first_number() == Some(Scalar::Double(x)),
        v matches AttributeValueView::Floats(s) ==> (v.numbers() matches Some(t) && t.len()
            == s.len() && (forall|i: int| 0 <= i < s.len() ==> #[trigger] t[i] == Scalar::Float(
            s[i],
        )) && (s.len() > 0 ==> v.first_number() == Some(Scalar::Float(s[0])))),
        v matches AttributeValueView::Doubles(s) ==> (v.numbers() matches Some(t) && t.len()
            == s.len() && (forall|i: int| 0 <= i < s.len() ==> #[trigger] t[i] == Scalar::Double(
            s[i],
        )) && (s.len() > 0 ==> v.first_number() == Some(Scalar::Double(s[0])))),
{
}

/// Text is no number, and a list of none has no first.
pub proof fn what_holds_no_number_has_no_first(v: AttributeValueView)
    ensures
        v is Str || v is Strs || v is Raw <==> v.numbers() is None,
        v.first_number() is Some <==> v.numbers() is Some && v.numbers()->Some_0.len() > 0,
        v.first_number() is Some ==> v.numbers()->Some_0[0] == v.first_number()->Some_0,
{
}

/// An integer keeps its value in any integer type that holds it, and its low bits in
/// any other.
pub proof fn integers_keep_their_low_bits(s: Scalar)
    requires
        is_whole(s),
    ensures
        (converted::<i8>(s) as int - whole_value(s)) % 0x100 == 0,
        (converted::<u8>(s) as int - whole_value(s)) % 0x100 == 0,
        (converted::<i16>(s) as int - whole_value(s)) % 0x1_0000 == 0,
        (converted::<u16>(s) as int - whole_value(s)) % 0x1_0000 == 0,
        (converted::<i32>(s) as int - whole_value(s)) % 0x1_0000_0000 == 0,
        (converted::<u32>(s) as int - whole_value(s)) % 0x1_0000_0000 == 0,
        (converted::<i64>(s) as int - whole_value(s)) % 0x1_0000_0000_0000_0000 == 0,
        (converted::<u64>(s) as int - whole_value(s)) % 0x1_0000_0000_0000_0000 == 0,
{
    match s {
        Scalar::Unsigned(v) => {
            assert(((v as u8) as int - v) % 0x100 == 0 && ((v as u16) as int - v) % 0x1_0000 == 0
                && ((v as u32) as int - v) % 0x1_0000_0000 == 0 && ((v as i8) as int - v) % 0x100
                == 0 && ((v as i16) as int - v) % 0x1_0000 == 0 && ((v as i32) as int - v)
                % 0x1_0000_0000 == 0 && ((v as i64) as int - v) % 0x1_0000_0000_0000_0000 == 0)
                by (bit_vector);
        },
        Scalar::Signed(v) => {
            assert(((v as u8) as int - v) % 0x100 == 0 && ((v as u16) as int - v) % 0x1_0000 == 0
                && ((v as u32) as int - v) % 0x1_0000_0000 == 0 && ((v as i8) as int - v) % 0x100
                == 0 && ((v as i16) as int - v) % 0x1_0000 == 0 && ((v as i32) as int - v)
                % 0x1_0000_0000 == 0 && ((v as u64) as int - v) % 0x1_0000_0000_0000_0000 == 0)
                by (bit_vector);
        },
        _ => {},
    }
}

// ── floats ─────────────────────────────────────────────────────────────────

/// The exponent field of a 64-bit float.
pub open spec fn exponent64(bits: u64) -> nat {
    (bits as nat / 0x10_0000_0000_0000) % 2048
}

/// The significand of a 64-bit float that is no zero, no subnormal number, no infinity
/// and no NaN.
pub open spec fn significand64(bits: u64) -> nat {
    0x10_0000_0000_0000 + bits as nat % 0x10_0000_0000_0000
}

/// The exponent field of a 32-bit float.
pub open spec fn exponent32(bits: u32) -> nat {
    (bits as nat / 0x80_0000) % 256
}

/// The significand of a 32-bit float that is no zero, no subnormal number, no infinity
/// and no NaN.
pub open spec fn significand32(bits: u32) -> nat {
    0x80_0000 + bits as nat % 0x80_0000
}

/// How far an integer is from zero.
pub open spec fn distance(n: int) -> nat {
    (if n < 0 {
        -n
    } else {
        n
    }) as nat
}

/// A 64-bit float is exactly `n`.
pub open spec fn is_exactly64(bits: u64, n: int) -> bool {
    if n == 0 {
        bits == 0
    } else {
        &&& bits >= 0x8000_0000_0000_0000 <==> n < 0
        &&& 0 < exponent64(bits) < 2047
        &&& significand64(bits) * pow2(exponent64(bits)) == distance(n) * pow2(1075)
    }
}

/// A 32-bit float is exactly `n`.
pub open spec fn is_exactly32(bits: u32, n: int) -> bool {
    if n == 0 {
        bits == 0
    } else {
        &&& bits >= 0x8000_0000 <==> n < 0
        &&& 0 < exponent32(bits) < 255
        &&& significand32(bits) * pow2(exponent32(bits)) == distance(n) * pow2(150)
    }
}

proof fn lemma_whole64(n: int)
    requires
        -0x20_0000_0000_0000 < n < 0x20_0000_0000_0000,
    ensures
        0 <= whole_pattern(Format::Double, n) <= u64::MAX,
        is_exactly64(whole_pattern(Format::Double, n) as u64, n),
{
    lemma2_to64();
    lemma2_to64_rest();
    let f = Format::Double;
    let m = distance(n);
    if m > 0 {
        lemma_digits(m);
        if digits(m) > 53 {
            if digits(m) > 54 {
                lemma_pow2_strictly_increases(53, (digits(m) - 1) as nat);
            }
            assert(false);
        }
        lemma_exact(f, m, 0);
        let r = rounded(f, m, 0);
        let bits = whole_pattern(f, n) as u64;
        let s = (53 - digits(m)) as nat;
        assert(exponent64(bits) == 1075 - s);
        assert(significand64(bits) == m * pow2(s));
        lemma_pow2_adds(s, (1075 - s) as nat);
        let (p, q) = (pow2(s), pow2((1075 - s) as nat));
        assert((m * p) * q == m * (p * q)) by (nonlinear_arith);
    }
}

proof fn lemma_whole32(n: int)
    requires
        -0x100_0000 < n < 0x100_0000,
    ensures
        0 <= whole_pattern(Format::Single, n) <= u32::MAX,
        is_exactly32(whole_pattern(Format::Single, n) as u32, n),
{
    lemma2_to64();
    lemma2_to64_rest();
    let f = Format::Single;
    let m = distance(n);
    if m > 0 {
        lemma_digits(m);
        if digits(m) > 24 {
            if digits(m) > 25 {
                lemma_pow2_strictly_increases(24, (digits(m) - 1) as nat);
            }
            assert(false);
        }
        lemma_exact(f, m, 0);
        let r = rounded(f, m, 0);
        let bits = whole_pattern(f, n) as u32;
        let s = (24 - digits(m)) as nat;
        assert(exponent32(bits) == 150 - s);
        assert(significand32(bits) == m * pow2(s));
        lemma_pow2_adds(s, (150 - s) as nat);
        let (p, q) = (pow2(s), pow2((150 - s) as nat));
        assert((m * p) * q == m * (p * q)) by (nonlinear_arith);
    }
}

/// An integer below two to the power 53 is exact as a 64-bit float: every integer of up
/// to 32 bits is.
pub proof fn small_integers_are_exact_as_doubles(s: Scalar)
    requires
        is_whole(s),
        -0x20_0000_0000_0000 < whole_value(s) < 0x20_0000_0000_0000,
    ensures
        is_exactly64(converted::<F64>(s).bits, whole_value(s)),
{
    lemma_whole64(whole_value(s));
}

/// An integer below two to the power 24 is exact as a 32-bit float: every integer of up
/// to 16 bits is.
pub proof fn small_integers_are_exact_as_singles(s: Scalar)
    requires
        is_whole(s),
        -0x100_0000 < whole_value(s) < 0x100_0000,
    ensures
        is_exactly32(converted::<F32>(s).bits, whole_value(s)),
{
    lemma_whole32(whole_value(s));
}

/// The 8-bit, 16-bit and 32-bit integers of an attribute are exact among its doubles.
pub proof fn the_doubles_of_an_attribute_are_its_integers(v: AttributeValueView, i: int, n: int)
    requires
        holds_integer(v, i, n),
        -0x20_0000_0000_0000 < n < 0x20_0000_0000_0000,
    ensures
        v.doubles() is Some,
        v.doubles()->Some_0.len() == v.count(),
        is_exactly64(v.doubles()->Some_0[i].bits, n),
{
    the_numbers_of_an_attribute_are_its_integers(v, i, n);
    small_integers_are_exact_as_doubles(v.numbers()->Some_0[i]);
}

// ── what the bytes of a number say ─────────────────────────────────────────

/// The bit pattern of an integer of `width` bytes: a negative one counts down from the
/// number behind the largest.
pub open spec fn pattern_of(n: int, width: nat) -> nat {
    (if n < 0 {
        n + pow256(width)
    } else {
        n
    }) as nat
}

/// The integer can be stored in `width` bytes.
pub open spec fn storable(n: int, width: nat, signed: bool) -> bool {
    if signed {
        -(pow256(width) / 2) <= n < pow256(width) / 2
    } else {
        0 <= n < pow256(width)
    }
}

/// The bytes of an integer, in the order that the type says.
pub open spec fn integer_written(n: int, width: nat, big: bool) -> Seq<u8> {
    if big {
        be(pattern_of(n, width), width)
    } else {
        le(pattern_of(n, width), width)
    }
}

/// The bytes of a bit pattern, in the order that the type says.
pub open spec fn pattern_written(bits: nat, width: nat, big: bool) -> Seq<u8> {
    if big {
        be(bits, width)
    } else {
        le(bits, width)
    }
}

proof fn lemma_turned(n: nat, width: nat)
    ensures
        be(n, width).reverse() == le(n, width),
    decreases width,
{
    lemma_be_len(n, width);
    lemma_le_len(n, width);
    if width > 0 {
        let w = (width - 1) as nat;
        lemma_turned(n / 256, w);
        lemma_be_len(n / 256, w);
        lemma_le_len(n / 256, w);
        let (b, l) = (be(n, width), le(n, width));
        assert forall|i: int| 0 <= i < width implies b.reverse()[i] == l[i] by {
            if i > 0 {
                assert(be(n / 256, w).reverse()[i - 1] == le(n / 256, w)[i - 1]);
            }
        }
        assert(b.reverse() =~= l);
    } else {
        assert(be(n, width).reverse() =~= le(n, width));
    }
}

proof fn lemma_pattern(d: DatatypeView, data: Seq<u8>, i: int, bits: nat)
    requires
        0 <= i,
        d.size > 0,
        bits < pow256(d.size as nat),
        holds(data, i * d.size, pattern_written(bits, d.size as nat, is_big(d))),
    ensures
        i < data.len() / d.size as nat,
        attribute_numbers(d, data)[i] == bits,
{
    let w = d.size as nat;
    lemma_be_len(bits, w);
    lemma_le_len(bits, w);
    assert((i + 1) * w == i * w + w) by (nonlinear_arith);
    assert(i < data.len() / w) by (nonlinear_arith)
        requires
            i * w + w <= data.len(),
            w > 0,
    ;
    lemma_turned(bits, w);
    lemma_le_read(bits, w);
}

/// The integers of an attribute are those that its bytes spell, in either byte order,
/// with a sign where the type has one.
pub proof fn an_attribute_holds_the_integers_that_were_written(
    d: DatatypeView,
    data: Seq<u8>,
    i: int,
    n: int,
)
    requires
        d.class is FixedPoint,
        d.size == 1 || d.size == 2 || d.size == 4 || d.size == 8,
        0 <= i,
        storable(n, d.size as nat, d.class->signed),
        holds(data, i * d.size, integer_written(n, d.size as nat, is_big(d))),
    ensures
        holds_integer(attribute_value(d, data, None), i, n),
        attribute_value(d, data, None).count() == data.len() / d.size as nat,
{
    crate::bytes::lemma_pow256_values();
    let w = d.size as nat;
    lemma_pattern(d, data, i, pattern_of(n, w));
    every_integer_survives(d, data, i);
    numbers_keep_their_count(d, data);
}

/// The floats of an attribute are those that its bytes spell, bit for bit.
pub proof fn an_attribute_holds_the_floats_that_were_written(
    d: DatatypeView,
    data: Seq<u8>,
    i: int,
    bits: nat,
)
    requires
        d.class is FloatingPoint,
        d.size == 4 || d.size == 8,
        0 <= i,
        bits < pow256(d.size as nat),
        holds(data, i * d.size, pattern_written(bits, d.size as nat, is_big(d))),
    ensures
        ({
            let v = attribute_value(d, data, None);
            &&& v.numbers() is Some
            &&& v.numbers()->Some_0.len() == data.len() / d.size as nat
            &&& i < v.numbers()->Some_0.len()
            &&& d.size == 4 ==> v.numbers()->Some_0[i] == Scalar::Float(bits as u32)
            &&& d.size == 8 ==> v.numbers()->Some_0[i] == Scalar::Double(bits as u64)
        }),
{
    crate::bytes::lemma_pow256_values();
    lemma_pattern(d, data, i, bits);
    numbers_keep_their_count(d, data);
}

/// The numbers of a read are those that its bytes spell, the least significant first:
/// an integer with a sign where the type has one, and a float bit for bit.
pub proof fn a_read_gives_the_numbers_that_were_written<T: Element>(
    d: DatatypeView,
    raw: RawDataView,
    i: int,
    n: int,
)
    requires
        0 < raw.element_size <= 8,
        d.class is FixedPoint || (d.class is FloatingPoint && (raw.element_size == 4
            || raw.element_size == 8)),
        d.class matches ClassView::FixedPoint { signed, .. } ==> storable(
            n,
            raw.element_size,
            signed,
        ),
        d.class is FloatingPoint ==> 0 <= n < pow256(raw.element_size),
        0 <= i,
        holds(raw.bytes, i * raw.element_size, integer_written(n, raw.element_size, false)),
    ensures
        ({
            let all = numbers_as::<T>(d, raw);
            let stored = if d.class is FloatingPoint {
                if raw.element_size == 4 {
                    Scalar::Float(n as u32)
                } else {
                    Scalar::Double(n as u64)
                }
            } else if d.class->signed {
                Scalar::Signed(n as i64)
            } else {
                Scalar::Unsigned(n as u64)
            };
            &&& all is Ok
            &&& all->Ok_0.len() == raw.bytes.len() / raw.element_size
            &&& i < all->Ok_0.len()
            &&& all->Ok_0[i] == converted::<T>(stored)
        }),
{
    crate::bytes::lemma_pow256_values();
    crate::bytes::lemma_pow256_monotonic(raw.element_size, 8);
    let w = raw.element_size;
    let bits = pattern_of(n, w);
    if n < 0 {
        crate::bytes::lemma_pow256_monotonic(1, w);
    }
    assert(bits < pow256(w));
    lemma_le_len(bits, w);
    assert((i + 1) * w == i * w + w) by (nonlinear_arith);
    assert(i < raw.bytes.len() / w) by (nonlinear_arith)
        requires
            i * w + w <= raw.bytes.len(),
            w > 0,
    ;
    lemma_le_read(bits, w);
    assert(crate::numbers::pattern_at(raw.bytes, w, i) == bits);
}

/// A type that holds no numbers gives none.
pub proof fn only_numbers_are_read_as_numbers<T: Element>(d: DatatypeView, raw: RawDataView)
    requires
        !(d.class is FixedPoint),
        !(d.class is FloatingPoint),
    ensures
        numbers_as::<T>(d, raw) is Err,
        numbers_as::<T>(d, raw)->Err_0 is TypeMismatch,
{
}

/// A number asked for in the type it is stored in is copied.
pub proof fn a_stored_type_is_not_converted(a: i64, b: u64, c: u32, e: u64)
    ensures
        converted::<i64>(Scalar::Signed(a)) == a,
        converted::<u64>(Scalar::Unsigned(b)) == b,
        converted::<F32>(Scalar::Float(c)).bits == c,
        converted::<F64>(Scalar::Double(e)).bits == e,
        i8::MIN <= a <= i8::MAX ==> converted::<i8>(Scalar::Signed(a)) == a,
        i16::MIN <= a <= i16::MAX ==> converted::<i16>(Scalar::Signed(a)) == a,
        i32::MIN <= a <= i32::MAX ==> converted::<i32>(Scalar::Signed(a)) == a,
        b <= u8::MAX ==> converted::<u8>(Scalar::Unsigned(b)) == b,
        b <= u16::MAX ==> converted::<u16>(Scalar::Unsigned(b)) == b,
        b <= u32::MAX ==> converted::<u32>(Scalar::Unsigned(b)) == b,
{
}

// ── from a float to an integer ─────────────────────────────────────────────

/// `n` is what a 64-bit float is without what lies behind the point.
pub open spec fn is_whole_part64(bits: u64, n: int) -> bool {
    let m = significand64(bits) * pow2(exponent64(bits));
    &&& 0 < exponent64(bits) < 2047
    &&& bits >= 0x8000_0000_0000_0000 ==> n <= 0
    &&& bits < 0x8000_0000_0000_0000 ==> n >= 0
    &&& distance(n) * pow2(1075) <= m < (distance(n) + 1) * pow2(1075)
}

proof fn lemma_truncated64(bits: u64, n: int)
    requires
        is_whole_part64(bits, n),
    ensures
        truncated(Format::Double, bits as nat) == n,
{
    let f = Format::Double;
    let b = bits as nat;
    let e = exponent64(bits);
    let s = significand64(bits);
    assert(crate::float::exponent_field(f, b) == e);
    assert(significand(f, b) == s);
    assert(unit(f, b) == e - 1075);
    let d = distance(n);
    if e >= 1075 {
        lemma_pow2_adds((e - 1075) as nat, 1075);
        lemma_pow2_pos(1075);
        let (p, q) = (pow2((e - 1075) as nat), pow2(1075));
        assert(s * (p * q) == (s * p) * q) by (nonlinear_arith);
        assert(s * p == d) by (nonlinear_arith)
            requires
                d * q <= (s * p) * q < (d + 1) * q,
                q > 0,
        ;
    } else {
        lemma_pow2_adds(e, (1075 - e) as nat);
        lemma_pow2_pos(e);
        lemma_pow2_pos((1075 - e) as nat);
        let (p, q) = (pow2(e), pow2((1075 - e) as nat));
        assert(d * (p * q) == (d * q) * p && (d + 1) * (p * q) == ((d + 1) * q) * p)
            by (nonlinear_arith);
        assert(d * q <= s < (d + 1) * q) by (nonlinear_arith)
            requires
                (d * q) * p <= s * p < ((d + 1) * q) * p,
                p > 0,
        ;
        assert(s / q == d) by (nonlinear_arith)
            requires
                d * q <= s < (d + 1) * q,
                q > 0,
        ;
    }
}

/// The integer nearest to `n` that lies between two limits.
pub open spec fn limited(n: int, low: int, high: int) -> int {
    if n < low {
        low
    } else if n > high {
        high
    } else {
        n
    }
}

/// A float becomes an integer by losing what lies behind the point, and stops at the
/// limits of the type.
pub proof fn doubles_are_truncated_and_limited(bits: u64, n: int)
    requires
        is_whole_part64(bits, n),
    ensures
        converted::<i8>(Scalar::Double(bits)) == limited(n, -0x80, 0x7f),
        converted::<i16>(Scalar::Double(bits)) == limited(n, -0x8000, 0x7fff),
        converted::<i32>(Scalar::Double(bits)) == limited(n, -0x8000_0000, 0x7fff_ffff),
        converted::<i64>(Scalar::Double(bits)) == limited(
            n,
            -0x8000_0000_0000_0000,
            0x7fff_ffff_ffff_ffff,
        ),
        converted::<u8>(Scalar::Double(bits)) == limited(n, 0, 0xff),
        converted::<u16>(Scalar::Double(bits)) == limited(n, 0, 0xffff),
        converted::<u32>(Scalar::Double(bits)) == limited(n, 0, 0xffff_ffff),
        converted::<u64>(Scalar::Double(bits)) == limited(n, 0, 0xffff_ffff_ffff_ffff),
{
    lemma_truncated64(bits, n);
}

/// `n` is what a 32-bit float is without what lies behind the point.
pub open spec fn is_whole_part32(bits: u32, n: int) -> bool {
    let m = significand32(bits) * pow2(exponent32(bits));
    &&& 0 < exponent32(bits) < 255
    &&& bits >= 0x8000_0000 ==> n <= 0
    &&& bits < 0x8000_0000 ==> n >= 0
    &&& distance(n) * pow2(150) <= m < (distance(n) + 1) * pow2(150)
}

proof fn lemma_truncated32(bits: u32, n: int)
    requires
        is_whole_part32(bits, n),
    ensures
        truncated(Format::Single, bits as nat) == n,
{
    let f = Format::Single;
    let b = bits as nat;
    let e = exponent32(bits);
    let s = significand32(bits);
    assert(crate::float::exponent_field(f, b) == e);
    assert(significand(f, b) == s);
    assert(unit(f, b) == e - 150);
    let d = distance(n);
    if e >= 150 {
        lemma_pow2_adds((e - 150) as nat, 150);
        lemma_pow2_pos(150);
        let (p, q) = (pow2((e - 150) as nat), pow2(150));
        assert(s * (p * q) == (s * p) * q) by (nonlinear_arith);
        assert(s * p == d) by (nonlinear_arith)
            requires
                d * q <= (s * p) * q < (d + 1) * q,
                q > 0,
        ;
    } else {
        lemma_pow2_adds(e, (150 - e) as nat);
        lemma_pow2_pos(e);
        lemma_pow2_pos((150 - e) as nat);
        let (p, q) = (pow2(e), pow2((150 - e) as nat));
        assert(d * (p * q) == (d * q) * p && (d + 1) * (p * q) == ((d + 1) * q) * p)
            by (nonlinear_arith);
        assert(d * q <= s < (d + 1) * q) by (nonlinear_arith)
            requires
                (d * q) * p <= s * p < ((d + 1) * q) * p,
                p > 0,
        ;
        assert(s / q == d) by (nonlinear_arith)
            requires
                d * q <= s < (d + 1) * q,
                q > 0,
        ;
    }
}

/// The same holds of 32-bit floats.
pub proof fn singles_are_truncated_and_limited(bits: u32, n: int)
    requires
        is_whole_part32(bits, n),
    ensures
        converted::<i8>(Scalar::Float(bits)) == limited(n, -0x80, 0x7f),
        converted::<i16>(Scalar::Float(bits)) == limited(n, -0x8000, 0x7fff),
        converted::<i32>(Scalar::Float(bits)) == limited(n, -0x8000_0000, 0x7fff_ffff),
        converted::<i64>(Scalar::Float(bits)) == limited(
            n,
            -0x8000_0000_0000_0000,
            0x7fff_ffff_ffff_ffff,
        ),
        converted::<u8>(Scalar::Float(bits)) == limited(n, 0, 0xff),
        converted::<u16>(Scalar::Float(bits)) == limited(n, 0, 0xffff),
        converted::<u32>(Scalar::Float(bits)) == limited(n, 0, 0xffff_ffff),
        converted::<u64>(Scalar::Float(bits)) == limited(n, 0, 0xffff_ffff_ffff_ffff),
{
    lemma_truncated32(bits, n);
}

/// What is not a number becomes zero.
pub proof fn what_is_no_number_becomes_zero(bits: u64)
    requires
        exponent64(bits) == 2047,
        bits as nat % 0x10_0000_0000_0000 != 0,
    ensures
        converted::<i8>(Scalar::Double(bits)) == 0,
        converted::<i16>(Scalar::Double(bits)) == 0,
        converted::<i32>(Scalar::Double(bits)) == 0,
        converted::<i64>(Scalar::Double(bits)) == 0,
        converted::<u8>(Scalar::Double(bits)) == 0,
        converted::<u16>(Scalar::Double(bits)) == 0,
        converted::<u32>(Scalar::Double(bits)) == 0,
        converted::<u64>(Scalar::Double(bits)) == 0,
{
    assert(crate::float::is_nan(Format::Double, bits as nat));
}

/// A 32-bit float read as a 64-bit one is the same number.
pub proof fn widening_keeps_the_number(bits: u32)
    requires
        0 < exponent32(bits) < 255,
    ensures
        ({
            let wide = converted::<F64>(Scalar::Float(bits)).bits;
            &&& 0 < exponent64(wide) < 2047
            &&& wide >= 0x8000_0000_0000_0000 <==> bits >= 0x8000_0000
            &&& exponent64(wide) == exponent32(bits) + 896
            &&& significand64(wide) == significand32(bits) * 0x2000_0000
        }),
{
    lemma2_to64();
    lemma2_to64_rest();
    let (s, d) = (Format::Single, Format::Double);
    let b = bits as nat;
    let m = significand32(bits);
    let q = exponent32(bits) - 150;
    assert(crate::float::exponent_field(s, b) == exponent32(bits));
    assert(significand(s, b) == m && unit(s, b) == q);
    lemma_digits(m);
    if digits(m) != 24 {
        if digits(m) < 24 {
            if digits(m) < 23 {
                lemma_pow2_strictly_increases(digits(m), 23);
            }
        } else {
            if digits(m) > 25 {
                lemma_pow2_strictly_increases(24, (digits(m) - 1) as nat);
            }
        }
        assert(false);
    }
    lemma_exact(d, m, q);
    let r = rounded(d, m, q);
    let wide = converted::<F64>(Scalar::Float(bits)).bits;
    assert(!crate::float::is_nan(s, b) && !crate::float::is_infinite(s, b));
    assert(wide == r + if bits >= 0x8000_0000 {
        0x8000_0000_0000_0000nat
    } else {
        0nat
    });
}

} // verus!
