//! The two checksums that an HDF5 file carries.
//!
//! Metadata blocks end in a Jenkins lookup3 hash. Chunks that went through the
//! fletcher32 filter end in a Fletcher checksum over 16-bit words.

use vstd::prelude::*;
use vstd::slice::slice_subrange;

use crate::bytes::from_le;
#[allow(unused_imports)]
use crate::bytes::{le_value, lemma_pow256_monotonic, lemma_pow256_values};

verus! {

/// The three words that lookup3 mixes.
pub struct Lookup3 {
    pub a: u32,
    pub b: u32,
    pub c: u32,
}

/// The sum of two words, modulo 2^32.
pub open spec fn plus(x: u32, y: u32) -> u32 {
    ((x + y) % 0x1_0000_0000) as u32
}

/// The difference of two words, modulo 2^32.
pub open spec fn minus(x: u32, y: u32) -> u32 {
    ((x - y) % 0x1_0000_0000) as u32
}

/// `x` rotated left by `k` bits.
pub open spec fn rotated(x: u32, k: u32) -> u32 {
    (x << k) | (x >> ((32 - k) as u32))
}

/// The four bytes of `b` from `i` on as a little-endian word; bytes past the
/// end count as zero.
pub open spec fn word_at(b: Seq<u8>, i: int) -> u32 {
    let from = if i < b.len() { i } else { b.len() as int };
    let to = if i + 4 < b.len() { i + 4 } else { b.len() as int };
    le_value(b.subrange(from, to)) as u32
}

impl Lookup3 {
    /// The words of the twelve bytes from `i` on are added in.
    #[verifier::opaque]
    pub open spec fn absorbed(self, b: Seq<u8>, i: int) -> Lookup3 {
        Lookup3 {
            a: plus(self.a, word_at(b, i)),
            b: plus(self.b, word_at(b, i + 4)),
            c: plus(self.c, word_at(b, i + 8)),
        }
    }

    /// `x` takes `x - z`, then mixes in `z` rotated by `k`.
    pub open spec fn stirred(x: u32, z: u32, k: u32) -> u32 {
        minus(x, z) ^ rotated(z, k)
    }

    /// One reversible mix of the three words.
    #[verifier::opaque]
    pub open spec fn mixed(self) -> Lookup3 {
        let a = Lookup3::stirred(self.a, self.c, 4);
        let c = plus(self.c, self.b);
        let b = Lookup3::stirred(self.b, a, 6);
        let a = plus(a, c);
        let c = Lookup3::stirred(c, b, 8);
        let b = plus(b, a);
        let a = Lookup3::stirred(a, c, 16);
        let c = plus(c, b);
        let b = Lookup3::stirred(b, a, 19);
        let a = plus(a, c);
        let c = Lookup3::stirred(c, b, 4);
        let b = plus(b, a);
        Lookup3 { a, b, c }
    }

    /// `x` mixes in `z`, then loses `z` rotated by `k`.
    pub open spec fn settled(x: u32, z: u32, k: u32) -> u32 {
        minus(x ^ z, rotated(z, k))
    }

    /// The last word after the final mix.
    #[verifier::opaque]
    pub open spec fn finished(self) -> u32 {
        let c = Lookup3::settled(self.c, self.b, 14);
        let a = Lookup3::settled(self.a, c, 11);
        let b = Lookup3::settled(self.b, a, 25);
        let c = Lookup3::settled(c, b, 16);
        let a = Lookup3::settled(a, c, 4);
        let b = Lookup3::settled(b, a, 14);
        Lookup3::settled(c, b, 24)
    }

    /// The hash of `b` from `i` on, starting from these words.
    pub open spec fn hashed(self, b: Seq<u8>, i: int) -> u32
        decreases b.len() - i,
    {
        if b.len() - i > 12 {
            self.absorbed(b, i).mixed().hashed(b, i + 12)
        } else if i >= b.len() {
            self.c
        } else {
            self.absorbed(b, i).finished()
        }
    }
}

/// The words that lookup3 starts from for `len` bytes.
pub open spec fn lookup3_start(len: nat) -> Lookup3 {
    let w = ((0xdead_beef + len) % 0x1_0000_0000) as u32;
    Lookup3 { a: w, b: w, c: w }
}

/// The lookup3 hash that ends a metadata block.
pub open spec fn metadata_checksum(b: Seq<u8>) -> u32 {
    lookup3_start(b.len()).hashed(b, 0)
}

fn rotate(x: u32, k: u32) -> (r: u32)
    requires
        0 < k < 32,
    ensures
        r == rotated(x, k),
{
    (x << k) | (x >> (32 - k))
}

fn plus_exec(x: u32, y: u32) -> (r: u32)
    ensures
        r == plus(x, y),
{
    ((x as u64 + y as u64) % 0x1_0000_0000) as u32
}

fn minus_exec(x: u32, y: u32) -> (r: u32)
    ensures
        r == minus(x, y),
{
    if x >= y {
        x - y
    } else {
        (0x1_0000_0000 - (y - x) as u64) as u32
    }
}

fn stir(x: u32, z: u32, k: u32) -> (r: u32)
    requires
        0 < k < 32,
    ensures
        r == Lookup3::stirred(x, z, k),
{
    minus_exec(x, z) ^ rotate(z, k)
}

fn settle(x: u32, z: u32, k: u32) -> (r: u32)
    requires
        0 < k < 32,
    ensures
        r == Lookup3::settled(x, z, k),
{
    minus_exec(x ^ z, rotate(z, k))
}

fn word(b: &[u8], i: usize) -> (r: u32)
    requires
        i <= b@.len(),
    ensures
        r == word_at(b@, i as int),
{
    let to: usize = if b.len() - i > 4 { i + 4 } else { b.len() };
    let bytes = slice_subrange(b, i, to);
    proof {
        lemma_pow256_values();
        lemma_pow256_monotonic(bytes@.len(), 4);
    }
    from_le(bytes) as u32
}

fn absorb(s: Lookup3, b: &[u8], i: usize) -> (r: Lookup3)
    requires
        i < b@.len(),
    ensures
        r == s.absorbed(b@, i as int),
{
    proof {
        reveal(Lookup3::absorbed);
    }
    // A word that starts past the end is all zeros.
    let left: usize = b.len() - i;
    let w0: u32 = word(b, i);
    let w1: u32 = if left > 4 { word(b, i + 4) } else { 0 };
    let w2: u32 = if left > 8 { word(b, i + 8) } else { 0 };
    proof {
        assert(b@.subrange(b@.len() as int, b@.len() as int) =~= Seq::<u8>::empty());
    }
    Lookup3 { a: plus_exec(s.a, w0), b: plus_exec(s.b, w1), c: plus_exec(s.c, w2) }
}

fn mix(s: Lookup3) -> (r: Lookup3)
    ensures
        r == s.mixed(),
{
    proof {
        reveal(Lookup3::mixed);
    }
    let a: u32 = stir(s.a, s.c, 4);
    let c: u32 = plus_exec(s.c, s.b);
    let b: u32 = stir(s.b, a, 6);
    let a: u32 = plus_exec(a, c);
    let c: u32 = stir(c, b, 8);
    let b: u32 = plus_exec(b, a);
    let a: u32 = stir(a, c, 16);
    let c: u32 = plus_exec(c, b);
    let b: u32 = stir(b, a, 19);
    let a: u32 = plus_exec(a, c);
    let c: u32 = stir(c, b, 4);
    let b: u32 = plus_exec(b, a);
    Lookup3 { a, b, c }
}

fn finish(s: Lookup3) -> (r: u32)
    ensures
        r == s.finished(),
{
    proof {
        reveal(Lookup3::finished);
    }
    let c: u32 = settle(s.c, s.b, 14);
    let a: u32 = settle(s.a, c, 11);
    let b: u32 = settle(s.b, a, 25);
    let c: u32 = settle(c, b, 16);
    let a: u32 = settle(a, c, 4);
    let b: u32 = settle(b, a, 14);
    settle(c, b, 24)
}

fn start(len: usize) -> (r: Lookup3)
    ensures
        r == lookup3_start(len as nat),
{
    let w: u32 = plus_exec(0xdead_beef, (len as u64 % 0x1_0000_0000) as u32);
    Lookup3 { a: w, b: w, c: w }
}

/// The checksum that HDF5 stores behind a metadata block.
pub fn metadata(b: &[u8]) -> (r: u32)
    ensures
        r == metadata_checksum(b@),
{
    let mut s = start(b.len());
    let mut i: usize = 0;
    while b.len() - i > 12
        invariant
            i <= b@.len(),
            metadata_checksum(b@) == s.hashed(b@, i as int),
        decreases b@.len() - i,
    {
        s = mix(absorb(s, b, i));
        i = i + 12;
    }
    if i >= b.len() {
        s.c
    } else {
        finish(absorb(s, b, i))
    }
}

/// The `i`-th 16-bit word of `b`, most significant byte first; a last odd byte
/// counts as the high byte of a word.
pub open spec fn fletcher_word(b: Seq<u8>, i: int) -> nat {
    256 * b[2 * i] as nat + if 2 * i + 1 < b.len() {
        b[2 * i + 1] as nat
    } else {
        0
    }
}

/// The sum of the first `n` words.
pub open spec fn fletcher_sum(b: Seq<u8>, n: nat) -> nat
    decreases n,
{
    if n == 0 {
        0
    } else {
        fletcher_sum(b, (n - 1) as nat) + fletcher_word(b, n - 1)
    }
}

/// The sum of the first `n` running sums.
pub open spec fn fletcher_double_sum(b: Seq<u8>, n: nat) -> nat
    decreases n,
{
    if n == 0 {
        0
    } else {
        fletcher_double_sum(b, (n - 1) as nat) + fletcher_sum(b, n)
    }
}

/// `n` folded into sixteen bits: its remainder by 65535, in which only zero
/// itself folds to zero.
pub open spec fn folded(n: nat) -> nat {
    if n == 0 {
        0
    } else {
        ((n - 1) % 65535 + 1) as nat
    }
}

/// The Fletcher checksum of `b`: the double sum above the sum.
pub open spec fn fletcher32_checksum(b: Seq<u8>) -> u32 {
    let words = (b.len() + 1) / 2;
    (folded(fletcher_double_sum(b, words)) * 65536 + folded(fletcher_sum(b, words))) as u32
}

fn fold_in(sum: u32, x: u32, Ghost(n): Ghost<nat>) -> (r: u32)
    requires
        sum == folded(n),
        x <= 65535,
    ensures
        r == folded(n + x as nat),
        r <= 65535,
{
    let s: u32 = sum + x;
    if s > 65535 {
        s - 65535
    } else {
        s
    }
}

proof fn lemma_folded_sum(m: nat, n: nat)
    ensures
        folded(m + folded(n)) == folded(m + n),
{
}

/// The checksum that HDF5's fletcher32 filter stores behind a chunk.
pub fn fletcher32(b: &[u8]) -> (r: u32)
    ensures
        r == fletcher32_checksum(b@),
{
    let mut sum: u32 = 0;
    let mut double_sum: u32 = 0;
    let mut i: usize = 0;
    let ghost mut n: nat = 0;
    assert(b.len() <= usize::MAX);
    while i < b.len()
        invariant
            i <= b@.len() <= usize::MAX,
            n == (i + 1) / 2,
            i % 2 == 0 || i == b@.len(),
            sum == folded(fletcher_sum(b@, n)),
            double_sum == folded(fletcher_double_sum(b@, n)),
        decreases b@.len() - i,
    {
        let high: u32 = b[i] as u32;
        let low: u32 = if b.len() - i > 1 { b[i + 1] as u32 } else { 0 };
        let w: u32 = 256 * high + low;
        assert(w == fletcher_word(b@, n as int));
        sum = fold_in(sum, w, Ghost(fletcher_sum(b@, n)));
        double_sum = fold_in(double_sum, sum, Ghost(fletcher_double_sum(b@, n)));
        proof {
            lemma_folded_sum(fletcher_double_sum(b@, n), fletcher_sum(b@, n + 1));
            n = n + 1;
        }
        i = if b.len() - i > 1 { i + 2 } else { i + 1 };
    }
    assert(n == (b@.len() + 1) / 2);
    double_sum * 65536 + sum
}

} // verus!
