//! IEEE floating-point numbers, held by their bit patterns.
//!
//! A pattern is a sign, an exponent and a fraction. A finite number is a whole
//! significand times a power of two, so what becomes of a number in another
//! type is a question about whole numbers, and this module answers it so.

use vstd::arithmetic::power2::pow2;
#[allow(unused_imports)]
use vstd::arithmetic::power2::{
    lemma2_to64, lemma2_to64_rest, lemma_pow2_adds, lemma_pow2_pos, lemma_pow2_strictly_increases,
    lemma_pow2_unfold,
};
use vstd::prelude::*;

verus! {

/// One of the two widths in which a file stores floats.
#[derive(Debug, Clone, Copy, PartialEq, Eq, Structural)]
pub enum Format {
    /// Four bytes.
    Single,
    /// Eight bytes.
    Double,
}

impl Format {
    /// The weight of the sign bit.
    pub open spec fn sign_bit(self) -> nat {
        match self {
            Format::Single => 0x8000_0000,
            Format::Double => 0x8000_0000_0000_0000,
        }
    }

    /// The weight of the exponent's lowest bit. A normal significand starts
    /// with a bit of this weight, which the pattern leaves out.
    pub open spec fn hidden_bit(self) -> nat {
        match self {
            Format::Single => 0x80_0000,
            Format::Double => 0x10_0000_0000_0000,
        }
    }

    /// The exponent field of infinity and of what is not a number.
    pub open spec fn top(self) -> nat {
        match self {
            Format::Single => 255,
            Format::Double => 2047,
        }
    }

    /// The pattern of infinity.
    pub open spec fn infinity(self) -> nat {
        match self {
            Format::Single => 0x7f80_0000,
            Format::Double => 0x7ff0_0000_0000_0000,
        }
    }

    /// The power of two that the least positive number is.
    pub open spec fn least(self) -> int {
        match self {
            Format::Single => -149,
            Format::Double => -1074,
        }
    }

    /// How many binary digits a significand has.
    pub open spec fn precision(self) -> nat {
        match self {
            Format::Single => 24,
            Format::Double => 53,
        }
    }
}

// ── reading a pattern ──────────────────────────────────────────────────────

/// Whether the sign of a pattern is set.
pub open spec fn is_negative(f: Format, bits: nat) -> bool {
    bits >= f.sign_bit()
}

/// The exponent field of a pattern.
pub open spec fn exponent_field(f: Format, bits: nat) -> nat {
    (bits % f.sign_bit()) / f.hidden_bit()
}

/// The fraction field of a pattern.
pub open spec fn fraction_field(f: Format, bits: nat) -> nat {
    bits % f.hidden_bit()
}

/// Whether a pattern stands for no number at all.
pub open spec fn is_nan(f: Format, bits: nat) -> bool {
    exponent_field(f, bits) == f.top() && fraction_field(f, bits) != 0
}

/// Whether a pattern stands for infinity, of either sign.
pub open spec fn is_infinite(f: Format, bits: nat) -> bool {
    exponent_field(f, bits) == f.top() && fraction_field(f, bits) == 0
}

/// The significand of a number, as a whole number.
pub open spec fn significand(f: Format, bits: nat) -> nat {
    if exponent_field(f, bits) == 0 {
        fraction_field(f, bits)
    } else {
        f.hidden_bit() + fraction_field(f, bits)
    }
}

/// The power of two that the significand counts.
pub open spec fn unit(f: Format, bits: nat) -> int {
    if exponent_field(f, bits) == 0 {
        f.least()
    } else {
        f.least() + exponent_field(f, bits) - 1
    }
}

/// A pattern, taken apart.
struct Parts {
    negative: bool,
    exponent: u64,
    fraction: u64,
    significand: u64,
    unit: i32,
}

fn take_apart(f: Format, bits: u64) -> (r: Parts)
    requires
        bits < 2 * f.sign_bit(),
    ensures
        r.negative == is_negative(f, bits as nat),
        r.exponent == exponent_field(f, bits as nat),
        r.fraction == fraction_field(f, bits as nat),
        r.significand == significand(f, bits as nat),
        r.unit == unit(f, bits as nat),
        r.exponent <= f.top(),
        r.fraction < f.hidden_bit(),
{
    match f {
        Format::Single => {
            let exponent: u64 = (bits % 0x8000_0000) / 0x80_0000;
            let fraction: u64 = bits % 0x80_0000;
            Parts {
                negative: bits >= 0x8000_0000,
                exponent,
                fraction,
                significand: if exponent == 0 { fraction } else { 0x80_0000 + fraction },
                unit: if exponent == 0 { -149 } else { exponent as i32 - 150 },
            }
        },
        Format::Double => {
            let exponent: u64 = (bits % 0x8000_0000_0000_0000) / 0x10_0000_0000_0000;
            let fraction: u64 = bits % 0x10_0000_0000_0000;
            Parts {
                negative: bits >= 0x8000_0000_0000_0000,
                exponent,
                fraction,
                significand: if exponent == 0 { fraction } else { 0x10_0000_0000_0000 + fraction },
                unit: if exponent == 0 { -1074 } else { exponent as i32 - 1075 },
            }
        },
    }
}

// ── from a float to a whole number ─────────────────────────────────────────

/// `m` times two to the power `q`, without what lies behind the point.
pub open spec fn whole_part(m: nat, q: int) -> nat {
    if q >= 0 {
        m * pow2(q as nat)
    } else {
        m / pow2((-q) as nat)
    }
}

/// The whole number that a pattern gives: what lies behind the point is dropped,
/// and what is not a number gives zero. Infinity is beyond every limit.
pub open spec fn truncated(f: Format, bits: nat) -> int {
    let whole = whole_part(significand(f, bits), unit(f, bits)) as int;
    if is_nan(f, bits) {
        0
    } else if is_negative(f, bits) {
        -whole
    } else {
        whole
    }
}

/// The number between two limits that is nearest to `n`.
pub open spec fn within(n: int, low: int, high: int) -> int {
    if n < low {
        low
    } else if n > high {
        high
    } else {
        n
    }
}

/// The whole part of `m` times two to the power `q`, as far as 64 bits can say.
fn whole(m: u64, q: i32) -> (r: u64)
    requires
        -2000 <= q <= 2000,
    ensures
        r == within(whole_part(m as nat, q as int) as int, 0, u64::MAX as int),
{
    proof {
        lemma2_to64();
        lemma2_to64_rest();
    }
    if m == 0 {
        proof {
            if q >= 0 {
                assert(0 * pow2(q as nat) == 0);
            } else {
                lemma_pow2_pos((-q) as nat);
                assert(0nat / pow2((-q) as nat) == 0) by (nonlinear_arith)
                    requires
                        pow2((-q) as nat) > 0,
                ;
            }
        }
        return 0;
    }
    if q >= 64 {
        proof {
            if q > 64 {
                lemma_pow2_strictly_increases(64, q as nat);
            }
            let p = pow2(q as nat);
            assert(m * p >= p) by (nonlinear_arith)
                requires
                    m >= 1,
                    p >= 0,
            ;
        }
        return u64::MAX;
    }
    if q >= 0 {
        let shift: u64 = q as u64;
        proof {
            lemma_pow2_pos(q as nat);
            vstd::bits::lemma_u64_mul_pow2_le_max_iff_max_shr(m, shift, u64::MAX);
            if m as nat * pow2(q as nat) <= u64::MAX {
                vstd::bits::lemma_u64_shl_is_mul(m, shift);
            }
        }
        if m <= u64::MAX >> shift {
            return m << shift;
        }
        return u64::MAX;
    }
    if q <= -64 {
        proof {
            let p = pow2((-q) as nat);
            if q < -64 {
                lemma_pow2_strictly_increases(64, (-q) as nat);
            }
            assert(m as nat / p == 0) by {
                vstd::arithmetic::div_mod::lemma_basic_div(m as int, p as int);
            }
        }
        return 0;
    }
    let shift: u64 = (-q) as u64;
    proof {
        vstd::bits::lemma_u64_shr_is_div(m, shift);
    }
    m >> shift
}

/// Drop what lies behind the point of a number: its sign, and how large it is as
/// far as 64 bits can say.
fn truncate(f: Format, bits: u64) -> (r: (bool, u64))
    requires
        bits < 2 * f.sign_bit(),
    ensures
        r.0 ==> truncated(f, bits as nat) <= 0 && r.1 == within(
            -truncated(f, bits as nat),
            0,
            u64::MAX as int,
        ),
        !r.0 ==> truncated(f, bits as nat) >= 0 && r.1 == within(
            truncated(f, bits as nat),
            0,
            u64::MAX as int,
        ),
{
    let parts = take_apart(f, bits);
    let top: u64 = match f {
        Format::Single => 255,
        Format::Double => 2047,
    };
    if parts.exponent == top && parts.fraction != 0 {
        return (false, 0);
    }
    (parts.negative, whole(parts.significand, parts.unit))
}

/// A float as a signed whole number between `-limit - 1` and `limit`.
pub fn to_signed(f: Format, bits: u64, limit: i64) -> (r: i64)
    requires
        bits < 2 * f.sign_bit(),
        0 <= limit,
    ensures
        r == within(truncated(f, bits as nat), -limit - 1, limit as int),
{
    let (negative, size) = truncate(f, bits);
    if negative {
        if size > limit as u64 {
            -limit - 1
        } else {
            -(size as i64)
        }
    } else if size > limit as u64 {
        limit
    } else {
        size as i64
    }
}

/// A float as a whole number between zero and `limit`.
pub fn to_unsigned(f: Format, bits: u64, limit: u64) -> (r: u64)
    requires
        bits < 2 * f.sign_bit(),
    ensures
        r == within(truncated(f, bits as nat), 0, limit as int),
{
    let (negative, size) = truncate(f, bits);
    if negative {
        0
    } else if size > limit {
        limit
    } else {
        size
    }
}

// ── from a number to a float ───────────────────────────────────────────────

/// The whole number nearest to `n / d`. A tie goes to the even one.
pub open spec fn half_even(n: nat, d: nat) -> nat {
    if 2 * (n % d) > d || (2 * (n % d) == d && (n / d) % 2 == 1) {
        n / d + 1
    } else {
        n / d
    }
}

/// How many binary digits a number has.
pub open spec fn digits(n: nat) -> nat
    decreases n,
{
    if n == 0 {
        0
    } else {
        digits(n / 2) + 1
    }
}

/// The power of two that the last digit counts when `m` times two to the power
/// `q` is written with as many digits as the format has.
pub open spec fn last_place(f: Format, m: nat, q: int) -> int {
    let u = q + digits(m) - f.precision();
    if u < f.least() {
        f.least()
    } else {
        u
    }
}

/// The digits that are kept of `m` times two to the power `q`: the nearest number
/// of units in the last place.
pub open spec fn kept_digits(f: Format, m: nat, q: int) -> nat {
    let u = last_place(f, m, q);
    if u <= q {
        m * pow2((q - u) as nat)
    } else {
        half_even(m, pow2((u - q) as nat))
    }
}

/// The pattern, without sign, of the float nearest to `m` times two to the power
/// `q`. Where no finite float is near enough it is infinity.
pub open spec fn rounded(f: Format, m: nat, q: int) -> nat {
    let bits = (last_place(f, m, q) - f.least()) * f.hidden_bit() + kept_digits(f, m, q);
    if m == 0 {
        0
    } else if bits > f.infinity() {
        f.infinity()
    } else {
        bits as nat
    }
}

pub proof fn lemma_digits(n: nat)
    requires
        n > 0,
    ensures
        digits(n) > 0,
        pow2((digits(n) - 1) as nat) <= n < pow2(digits(n)),
    decreases n,
{
    lemma2_to64();
    if n > 1 {
        lemma_digits(n / 2);
        lemma_pow2_unfold(digits(n));
        lemma_pow2_unfold((digits(n) - 1) as nat);
    } else {
        assert(digits(0) == 0);
        assert(digits(1) == digits(0) + 1);
    }
}

fn count_digits(n: u64) -> (r: u32)
    ensures
        r == digits(n as nat),
        r <= 64,
{
    let mut left: u64 = n;
    let mut count: u32 = 0;
    proof {
        lemma2_to64();
        if n > 0 {
            lemma_digits(n as nat);
            if digits(n as nat) > 65 {
                lemma_pow2_strictly_increases(64, (digits(n as nat) - 1) as nat);
            }
        }
    }
    while left > 0
        invariant
            count + digits(left as nat) == digits(n as nat) <= 64,
        decreases left,
    {
        left = left / 2;
        count = count + 1;
    }
    count
}

/// The kept digits fit the precision, but for a carry out of the first one.
proof fn lemma_kept(f: Format, m: nat, q: int)
    requires
        m > 0,
    ensures
        kept_digits(f, m, q) <= 2 * f.hidden_bit(),
{
    lemma2_to64();
    lemma2_to64_rest();
    lemma_digits(m);
    let u = last_place(f, m, q);
    let n = digits(m);
    assert(pow2(f.precision()) == 2 * f.hidden_bit());
    if u <= q {
        let s = (q - u) as nat;
        assert(n + s <= f.precision());
        lemma_pow2_adds(n, s);
        lemma_pow2_pos(s);
        let (a, b) = (pow2(n), pow2(s));
        assert(m * b <= a * b) by (nonlinear_arith)
            requires
                m < a,
                b > 0,
        ;
        if n + s < f.precision() {
            lemma_pow2_strictly_increases(n + s, f.precision());
        }
    } else {
        let s = (u - q) as nat;
        let d = pow2(s);
        lemma_pow2_pos(s);
        lemma_pow2_adds(s, f.precision());
        if n < s + f.precision() {
            lemma_pow2_strictly_increases(n, s + f.precision());
        }
        let h = pow2(f.precision());
        vstd::arithmetic::div_mod::lemma_fundamental_div_mod(m as int, d as int);
        assert(m / d < h) by (nonlinear_arith)
            requires
                m < d * h,
                d > 0,
                m == d * (m / d) + m % d,
                m % d >= 0,
        ;
    }
}

/// The whole number nearest to `m` over two to the power `s`.
fn round_half_even(m: u64, s: u32) -> (r: u64)
    requires
        0 < s,
    ensures
        r == half_even(m as nat, pow2(s as nat)),
{
    proof {
        lemma2_to64();
        lemma2_to64_rest();
        if s > 65 {
            lemma_pow2_strictly_increases(65, s as nat);
        }
        lemma_pow2_unfold(65);
        if s >= 64 {
            vstd::arithmetic::div_mod::lemma_basic_div(m as int, pow2(s as nat) as int);
            vstd::arithmetic::div_mod::lemma_small_mod(m as nat, pow2(s as nat));
        }
    }
    if s > 64 {
        return 0;
    }
    if s == 64 {
        return if m > 0x8000_0000_0000_0000 { 1 } else { 0 };
    }
    let shift: u64 = s as u64;
    proof {
        vstd::bits::lemma_u64_pow2_no_overflow(s as nat);
        vstd::bits::lemma_u64_shl_is_mul(1, shift);
    }
    let d: u64 = 1u64 << shift;
    let floor: u64 = m / d;
    let rest: u64 = m % d;
    proof {
        if s > 1 {
            lemma_pow2_strictly_increases(1, s as nat);
        }
        assert(floor <= m / 2) by (nonlinear_arith)
            requires
                floor == m / d,
                d >= 2,
        ;
    }
    if rest > d - rest || (rest == d - rest && floor % 2 == 1) {
        floor + 1
    } else {
        floor
    }
}

/// The pattern, without sign, of the float nearest to `m` times two to the power
/// `q`.
pub fn round(f: Format, m: u64, q: i32) -> (r: u64)
    requires
        -1100 <= q <= 1000,
    ensures
        r == rounded(f, m as nat, q as int),
        r <= f.infinity(),
{
    if m == 0 {
        return 0;
    }
    let (precision, least, hidden, infinity): (i32, i32, u64, u64) = match f {
        Format::Single => (24, -149, 0x80_0000, 0x7f80_0000),
        Format::Double => (53, -1074, 0x10_0000_0000_0000, 0x7ff0_0000_0000_0000),
    };
    let n: u32 = count_digits(m);
    let places: i32 = q + n as i32 - precision;
    let place: i32 = if places < least { least } else { places };
    proof {
        lemma_kept(f, m as nat, q as int);
    }
    let kept: u64 = if place <= q {
        let shift: u64 = (q - place) as u64;
        proof {
            lemma_digits(m as nat);
            vstd::bits::lemma_u64_shl_is_mul(m, shift);
        }
        m << shift
    } else {
        round_half_even(m, (place - q) as u32)
    };
    let bits: u64 = (place - least) as u64 * hidden + kept;
    if bits > infinity {
        infinity
    } else {
        bits
    }
}

// ── the two widths ─────────────────────────────────────────────────────────

/// A 32-bit float, by its bit pattern.
#[derive(Debug, Clone, Copy, PartialEq, Eq, Structural)]
pub struct F32 {
    pub bits: u32,
}

/// A 64-bit float, by its bit pattern.
#[derive(Debug, Clone, Copy, PartialEq, Eq, Structural)]
pub struct F64 {
    pub bits: u64,
}

/// The pattern of the float nearest to a whole number.
pub open spec fn whole_pattern(f: Format, n: int) -> nat {
    if n < 0 {
        f.sign_bit() + rounded(f, (-n) as nat, 0)
    } else {
        rounded(f, n as nat, 0)
    }
}

/// The fraction of one format, brought to the width of the other. What does not
/// fit is dropped.
pub open spec fn aligned(from: Format, to: Format, fraction: nat) -> nat {
    match (from, to) {
        (Format::Single, Format::Double) => fraction * 0x2000_0000,
        (Format::Double, Format::Single) => fraction / 0x2000_0000,
        _ => fraction,
    }
}

/// The pattern that a float has in another format: that of the nearest number, of
/// the same infinity, or of a quiet NaN that keeps what it can of its fraction.
pub open spec fn reformatted(from: Format, to: Format, bits: nat) -> nat {
    let sign = if is_negative(from, bits) {
        to.sign_bit()
    } else {
        0
    };
    if is_nan(from, bits) {
        sign + to.infinity() + to.hidden_bit() / 2 + aligned(
            from,
            to,
            fraction_field(from, bits),
        ) % (to.hidden_bit() / 2)
    } else if is_infinite(from, bits) {
        sign + to.infinity()
    } else {
        sign + rounded(to, significand(from, bits), unit(from, bits))
    }
}

/// The float nearest to a signed whole number.
pub fn from_signed(f: Format, n: i64) -> (r: u64)
    ensures
        r == whole_pattern(f, n as int),
        r < 2 * f.sign_bit(),
{
    if n >= 0 {
        return round(f, n as u64, 0);
    }
    let size: u64 = if n == i64::MIN { 0x8000_0000_0000_0000 } else { (-n) as u64 };
    let sign: u64 = match f {
        Format::Single => 0x8000_0000,
        Format::Double => 0x8000_0000_0000_0000,
    };
    sign + round(f, size, 0)
}

/// The float nearest to a whole number.
pub fn from_unsigned(f: Format, n: u64) -> (r: u64)
    ensures
        r == whole_pattern(f, n as int),
        r < 2 * f.sign_bit(),
{
    round(f, n, 0)
}

impl F32 {
    /// The 64-bit float of the same value.
    pub fn widen(self) -> (r: F64)
        ensures
            r.bits == reformatted(Format::Single, Format::Double, self.bits as nat),
    {
        let parts = take_apart(Format::Single, self.bits as u64);
        let sign: u64 = if parts.negative { 0x8000_0000_0000_0000 } else { 0 };
        let rest: u64 = if parts.exponent == 255 {
            if parts.fraction != 0 {
                0x7ff8_0000_0000_0000 + (parts.fraction * 0x2000_0000) % 0x8_0000_0000_0000
            } else {
                0x7ff0_0000_0000_0000
            }
        } else {
            round(Format::Double, parts.significand, parts.unit)
        };
        F64 { bits: sign + rest }
    }
}

impl F64 {
    /// The nearest 32-bit float.
    pub fn narrow(self) -> (r: F32)
        ensures
            r.bits == reformatted(Format::Double, Format::Single, self.bits as nat),
    {
        let parts = take_apart(Format::Double, self.bits);
        let sign: u64 = if parts.negative { 0x8000_0000 } else { 0 };
        let rest: u64 = if parts.exponent == 2047 {
            if parts.fraction != 0 {
                0x7fc0_0000 + (parts.fraction / 0x2000_0000) % 0x40_0000
            } else {
                0x7f80_0000
            }
        } else {
            round(Format::Single, parts.significand, parts.unit)
        };
        F32 { bits: (sign + rest) as u32 }
    }
}

// ── what a conversion keeps ────────────────────────────────────────────────

/// A number that needs no more digits than the format has, and is not too small
/// or too large for it, is kept exactly.
pub proof fn lemma_exact(f: Format, m: nat, q: int)
    requires
        m > 0,
        digits(m) <= f.precision(),
        f.least() <= q + digits(m) - f.precision() < f.least() + f.top() - 1,
    ensures
        ({
            let r = rounded(f, m, q);
            let u = q + digits(m) - f.precision();
            &&& significand(f, r) == m * pow2((q - u) as nat)
            &&& unit(f, r) == u
            &&& !is_nan(f, r)
            &&& !is_infinite(f, r)
            &&& r < f.sign_bit()
        }),
{
    lemma2_to64();
    lemma2_to64_rest();
    lemma_digits(m);
    let n = digits(m);
    let u = q + n - f.precision();
    let s = (q - u) as nat;
    let k = m * pow2(s);
    lemma_pow2_adds(n, s);
    lemma_pow2_adds((n - 1) as nat, s);
    lemma_pow2_pos(s);
    let (low, high, p) = (pow2((n - 1) as nat), pow2(n), pow2(s));
    assert(low * p <= m * p < high * p) by (nonlinear_arith)
        requires
            low <= m < high,
            p > 0,
    ;
    assert(f.hidden_bit() <= k < 2 * f.hidden_bit());
    let bits = (u - f.least()) * f.hidden_bit() + k;
    match f {
        Format::Single => {
            assert(bits == (u + 149) * 0x80_0000 + k);
        },
        Format::Double => {
            assert(bits == (u + 1074) * 0x10_0000_0000_0000 + k);
        },
    }
}

/// A 32-bit float read as a 64-bit one loses nothing: the sign is the same, and
/// so is the significand, counted in the smaller unit.
pub proof fn widening_is_exact(bits: u32)
    requires
        !is_nan(Format::Single, bits as nat),
        !is_infinite(Format::Single, bits as nat),
    ensures
        ({
            let wide = reformatted(Format::Single, Format::Double, bits as nat);
            let (s, d) = (Format::Single, Format::Double);
            &&& is_negative(d, wide) == is_negative(s, bits as nat)
            &&& !is_nan(d, wide)
            &&& !is_infinite(d, wide)
            &&& unit(d, wide) <= unit(s, bits as nat)
            &&& significand(d, wide) == significand(s, bits as nat) * pow2(
                (unit(s, bits as nat) - unit(d, wide)) as nat,
            )
        }),
{
    lemma2_to64();
    lemma2_to64_rest();
    let m = significand(Format::Single, bits as nat);
    let q = unit(Format::Single, bits as nat);
    let r = rounded(Format::Double, m, q);
    if m > 0 {
        lemma_digits(m);
        if digits(m) > 24 {
            if digits(m) > 25 {
                lemma_pow2_strictly_increases(24, (digits(m) - 1) as nat);
            }
            assert(false);
        }
        lemma_exact(Format::Double, m, q);
    } else {
        assert(0 * pow2((q - unit(Format::Double, 0)) as nat) == 0);
    }
    assert((r + 0x8000_0000_0000_0000) % 0x8000_0000_0000_0000 == r);
    assert((r + 0x8000_0000_0000_0000) % 0x10_0000_0000_0000 == r % 0x10_0000_0000_0000);
}

/// Whole numbers up to two to the power 53 survive as 64-bit floats. Larger ones
/// may not.
pub proof fn small_whole_numbers_survive(n: int)
    requires
        -0x20_0000_0000_0000 <= n <= 0x20_0000_0000_0000,
    ensures
        truncated(Format::Double, whole_pattern(Format::Double, n)) == n,
{
    lemma2_to64();
    lemma2_to64_rest();
    let f = Format::Double;
    let m = (if n < 0 {
        -n
    } else {
        n
    }) as nat;
    let r = rounded(f, m, 0);
    if m > 0 {
        lemma_digits(m);
        if digits(m) > 54 {
            lemma_pow2_strictly_increases(54, digits(m));
            if digits(m) > 55 {
                lemma_pow2_strictly_increases(54, (digits(m) - 1) as nat);
            }
            assert(false);
        }
        if digits(m) == 54 {
            assert(m == 0x20_0000_0000_0000);
            assert(half_even(m, 2) == 0x10_0000_0000_0000);
            assert(r == 1075 * 0x10_0000_0000_0000 + 0x10_0000_0000_0000);
            assert(unit(f, r) == 1 && significand(f, r) == 0x10_0000_0000_0000);
            assert(whole_part(0x10_0000_0000_0000, 1) == m);
        } else {
            lemma_exact(f, m, 0);
            let s = (53 - digits(m)) as nat;
            lemma_pow2_pos(s);
            let p = pow2(s);
            vstd::arithmetic::div_mod::lemma_div_multiples_vanish(m as int, p as int);
            assert(m * p == p * m) by (nonlinear_arith);
            assert((m * p) / p == m);
            assert(unit(f, r) == -s && significand(f, r) == m * p);
            if s == 0 {
                assert((m * p) * p == m) by (nonlinear_arith)
                    requires
                        p == 1,
                ;
            }
            assert(whole_part(significand(f, r), unit(f, r)) == m);
        }
    } else {
        assert(0nat / pow2(1074) == 0) by {
            lemma_pow2_pos(1074);
            vstd::arithmetic::div_mod::lemma_basic_div(0, pow2(1074) as int);
        }
    }
    assert(whole_part(significand(f, r), unit(f, r)) == m);
    assert((r + 0x8000_0000_0000_0000) % 0x8000_0000_0000_0000 == r);
    assert((r + 0x8000_0000_0000_0000) % 0x10_0000_0000_0000 == r % 0x10_0000_0000_0000);
}

} // verus!
