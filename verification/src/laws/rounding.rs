//! Integers that no float holds exactly.

use vstd::prelude::*;

#[allow(unused_imports)]
use crate::element::{converted, Element, Scalar};
#[allow(unused_imports)]
use crate::float::{
    digits, half_even, kept_digits, last_place, lemma_digits, rounded, whole_pattern, Format, F64,
};
#[allow(unused_imports)]
use crate::laws::numbers::{exponent64, significand64};
#[allow(unused_imports)]
use vstd::arithmetic::power2::{
    lemma2_to64, lemma2_to64_rest, lemma_pow2_adds, lemma_pow2_pos, lemma_pow2_strictly_increases,
    lemma_pow2_unfold, pow2,
};

verus! {

/// `w` is as near to `n` as a multiple of `unit` can be; halfway between two, `even` says
/// that it is an even multiple.
pub open spec fn is_nearest(n: int, w: int, unit: int, even: bool) -> bool {
    &&& -unit <= 2 * (w - n) <= unit
    &&& 2 * (w - n) == unit || 2 * (n - w) == unit ==> even
}

proof fn lemma_half_even(n: nat, d: nat, low: nat)
    requires
        d > 0,
        low * d <= n < 2 * low * d,
    ensures
        is_nearest(n as int, half_even(n, d) as int * d, d as int, half_even(n, d) % 2 == 0),
        low <= half_even(n, d) <= 2 * low,
{
    let q = n / d;
    let r = n % d;
    vstd::arithmetic::div_mod::lemma_fundamental_div_mod(n as int, d as int);
    assert(n == q * d + r) by (nonlinear_arith)
        requires
            n == d * q + r,
    ;
    assert((q + 1) * d == q * d + d) by (nonlinear_arith);
    assert(low <= q < 2 * low) by (nonlinear_arith)
        requires
            n == q * d + r,
            0 <= r < d,
            low * d <= n < 2 * low * d,
            d > 0,
    ;
}

/// An integer from two to the power 53 on goes to the nearest double. Halfway between two
/// of them it goes to the one with an even significand.
#[verifier::spinoff_prover]
#[verifier::rlimit(40)]
pub proof fn a_large_integer_goes_to_the_nearest_double(v: u64)
    requires
        v >= 0x20_0000_0000_0000,
    ensures
        ({
            let bits = converted::<F64>(Scalar::Unsigned(v)).bits;
            let k = exponent64(bits) - 1075;
            &&& bits < 0x8000_0000_0000_0000
            &&& 1 <= k <= 12
            &&& is_nearest(
                v as int,
                significand64(bits) as int * pow2(k as nat),
                pow2(k as nat) as int,
                significand64(bits) % 2 == 0,
            )
        }),
{
    lemma2_to64();
    lemma2_to64_rest();
    let f = Format::Double;
    let n = v as nat;
    lemma_digits(n);
    let d = digits(n);
    if d < 54 {
        if d < 53 {
            lemma_pow2_strictly_increases(d, 53);
        }
        assert(false);
    }
    if d > 64 {
        if d > 65 {
            lemma_pow2_strictly_increases(64, (d - 1) as nat);
        }
        assert(false);
    }
    let u = (d - 53) as nat;
    lemma_pow2_adds(52, u);
    lemma_pow2_adds(53, u);
    lemma_pow2_pos(u);
    let kept = half_even(n, pow2(u));
    assert(last_place(f, n, 0) == u);
    assert(kept_digits(f, n, 0) == kept);
    lemma_half_even(n, pow2(u), 0x10_0000_0000_0000);
    let pattern = rounded(f, n, 0);
    assert(pattern == (u + 1074) * 0x10_0000_0000_0000 + kept);
    let bits = converted::<F64>(Scalar::Unsigned(v)).bits;
    assert(bits == pattern);
    if kept < 0x20_0000_0000_0000 {
        assert(exponent64(bits) == u + 1075);
        assert(significand64(bits) == kept);
    } else {
        assert(exponent64(bits) == u + 1076);
        assert(significand64(bits) == 0x10_0000_0000_0000);
        lemma_pow2_unfold(u + 1);
    }
}

} // verus!
