//! Checksums over data.

use vstd::prelude::*;

#[allow(unused_imports)]
use crate::checksum::{
    fletcher32_checksum, fletcher_double_sum, fletcher_sum, fletcher_word, folded,
};

verus! {

/// The sum of all words, kept in the low half of a checksum.
pub open spec fn low_half(sum: u32) -> int {
    sum as int % 0x1_0000
}

/// The sum of the sums on the way, kept in the high half.
pub open spec fn high_half(sum: u32) -> int {
    sum as int / 0x1_0000
}

/// Two numbers that differ by a multiple of 65535.
pub open spec fn alike(x: int, y: int) -> bool {
    (x - y) % 65535 == 0
}

proof fn lemma_folded(n: nat)
    ensures
        0 <= folded(n) <= 65535,
        alike(folded(n) as int, n as int),
        folded(n) == 0 <==> n == 0,
{
}

proof fn lemma_halves(b: Seq<u8>)
    ensures
        low_half(fletcher32_checksum(b)) == folded(fletcher_sum(b, (b.len() + 1) / 2)),
        high_half(fletcher32_checksum(b)) == folded(fletcher_double_sum(b, (b.len() + 1) / 2)),
{
    lemma_folded(fletcher_sum(b, (b.len() + 1) / 2));
    lemma_folded(fletcher_double_sum(b, (b.len() + 1) / 2));
}

proof fn lemma_prefix(b: Seq<u8>, c: Seq<u8>, n: nat)
    requires
        2 * n <= b.len() <= c.len(),
        forall|i: int| 0 <= i < b.len() ==> b[i] == c[i],
    ensures
        fletcher_sum(b, n) == fletcher_sum(c, n),
        fletcher_double_sum(b, n) == fletcher_double_sum(c, n),
    decreases n,
{
    if n > 0 {
        lemma_prefix(b, c, (n - 1) as nat);
        assert(fletcher_word(b, n - 1) == fletcher_word(c, n - 1));
    }
}

/// A sum that grows by `k` grows by as much when it is folded.
proof fn lemma_grown(m: nat, n: nat, k: nat)
    requires
        n == m + k,
    ensures
        alike(folded(n) as int, folded(m) as int + k),
        folded(n) == 0 <==> folded(m) == 0 && k == 0,
{
    lemma_folded(m);
    lemma_folded(n);
}

/// The same, where what is added was folded too.
proof fn lemma_grown_folded(m: nat, n: nat, k: nat)
    requires
        n == m + k,
    ensures
        alike(folded(n) as int, folded(m) as int + folded(k)),
        folded(n) == 0 <==> folded(m) == 0 && folded(k) == 0,
{
    lemma_folded(m);
    lemma_folded(n);
    lemma_folded(k);
}

proof fn lemma_word(b: Seq<u8>, high: u8, low: u8)
    requires
        b.len() % 2 == 0,
    ensures
        ({
            let c = b.push(high).push(low);
            let n = b.len() / 2;
            &&& (b.len() + 1) / 2 == n
            &&& (c.len() + 1) / 2 == n + 1
            &&& fletcher_sum(c, n + 1) == fletcher_sum(b, n) + (0x100 * high + low) as nat
            &&& fletcher_double_sum(c, n + 1) == fletcher_double_sum(b, n) + fletcher_sum(c, n + 1)
        }),
{
    let c = b.push(high).push(low);
    let n = b.len() / 2;
    lemma_prefix(b, c, n);
    assert(c[2 * n as int] == high);
    assert(c[2 * n as int + 1] == low);
    assert(fletcher_word(c, n as int) == 0x100 * high + low);
}

/// The checksum of nothing is zero. A word more, its most significant byte first, is
/// added to the low half, and the low half to the high one; both count modulo 65535, and
/// a half is zero only where nothing but zeros was added.
pub proof fn a_word_is_added_to_both_sums(b: Seq<u8>, high: u8, low: u8)
    requires
        b.len() % 2 == 0,
    ensures
        fletcher32_checksum(Seq::empty()) == 0,
        ({
            let before = fletcher32_checksum(b);
            let after = fletcher32_checksum(b.push(high).push(low));
            &&& alike(low_half(after), low_half(before) + 0x100 * high + low)
            &&& alike(high_half(after), high_half(before) + low_half(after))
            &&& low_half(after) == 0 <==> low_half(before) == 0 && high == 0 && low == 0
            &&& high_half(after) == 0 <==> high_half(before) == 0 && low_half(after) == 0
        }),
{
    let c = b.push(high).push(low);
    let n = b.len() / 2;
    lemma_word(b, high, low);
    lemma_halves(b);
    lemma_halves(c);
    lemma_grown(fletcher_sum(b, n), fletcher_sum(c, n + 1), (0x100 * high + low) as nat);
    lemma_grown_folded(
        fletcher_double_sum(b, n),
        fletcher_double_sum(c, n + 1),
        fletcher_sum(c, n + 1),
    );
    let none = Seq::<u8>::empty();
    lemma_halves(none);
    assert((none.len() + 1) / 2 == 0);
    assert(fletcher_sum(none, 0) == 0 && fletcher_double_sum(none, 0) == 0);
}

/// A last byte alone counts as if a zero stood behind it.
pub proof fn a_last_byte_counts_as_a_word(b: Seq<u8>, last: u8)
    requires
        b.len() % 2 == 0,
    ensures
        fletcher32_checksum(b.push(last)) == fletcher32_checksum(b.push(last).push(0)),
{
    let (c, e) = (b.push(last), b.push(last).push(0));
    let n = b.len() / 2;
    assert((c.len() + 1) / 2 == n + 1);
    assert((e.len() + 1) / 2 == n + 1);
    lemma_prefix(b, c, n);
    lemma_prefix(b, e, n);
    assert(fletcher_word(c, n as int) == fletcher_word(e, n as int));
    assert(fletcher_sum(c, n + 1) == fletcher_sum(e, n + 1));
    assert(fletcher_double_sum(c, n + 1) == fletcher_double_sum(e, n + 1));
}

} // verus!
