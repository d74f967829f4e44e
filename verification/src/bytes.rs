//! Integers spelled as bytes, in either byte order, and text spelled as bytes.

#[allow(unused_imports)]
use vstd::arithmetic::div_mod::lemma_fundamental_div_mod;
use vstd::prelude::*;

verus! {

/// 256 to the power `n`: how many values `n` bytes can spell.
pub open spec fn pow256(n: nat) -> nat
    decreases n,
{
    if n == 0 {
        1
    } else {
        256 * pow256((n - 1) as nat)
    }
}

/// The number that `b` spells with its least significant byte first.
pub open spec fn le_value(b: Seq<u8>) -> nat
    decreases b.len(),
{
    if b.len() == 0 {
        0
    } else {
        b[0] as nat + 256 * le_value(b.skip(1))
    }
}

/// The number that `b` spells with its most significant byte first.
pub open spec fn be_value(b: Seq<u8>) -> nat
    decreases b.len(),
{
    if b.len() == 0 {
        0
    } else {
        256 * be_value(b.drop_last()) + b.last() as nat
    }
}

pub proof fn lemma_pow256_values()
    ensures
        pow256(0) == 1,
        pow256(1) == 0x100,
        pow256(2) == 0x1_0000,
        pow256(3) == 0x100_0000,
        pow256(4) == 0x1_0000_0000,
        pow256(5) == 0x100_0000_0000,
        pow256(6) == 0x1_0000_0000_0000,
        pow256(7) == 0x100_0000_0000_0000,
        pow256(8) == 0x1_0000_0000_0000_0000,
{
    reveal_with_fuel(pow256, 9);
}

pub proof fn lemma_pow256_monotonic(a: nat, b: nat)
    requires
        a <= b,
    ensures
        pow256(a) <= pow256(b),
    decreases b,
{
    if a < b {
        lemma_pow256_monotonic(a, (b - 1) as nat);
    }
}

pub proof fn lemma_le_value_bound(b: Seq<u8>)
    ensures
        le_value(b) < pow256(b.len()),
    decreases b.len(),
{
    if b.len() > 0 {
        lemma_le_value_bound(b.skip(1));
    }
}

pub proof fn lemma_be_value_bound(b: Seq<u8>)
    ensures
        be_value(b) < pow256(b.len()),
    decreases b.len(),
{
    if b.len() > 0 {
        lemma_be_value_bound(b.drop_last());
    }
}

/// The number that at most eight bytes spell, least significant first.
pub fn from_le(b: &[u8]) -> (r: u64)
    requires
        b@.len() <= 8,
    ensures
        r == le_value(b@),
        r < pow256(b@.len()),
{
    let mut i: usize = b.len();
    let mut value: u64 = 0;
    assert(b@.skip(i as int) =~= Seq::<u8>::empty());
    while i > 0
        invariant
            i <= b@.len() <= 8,
            value == le_value(b@.skip(i as int)),
        decreases i,
    {
        proof {
            let rest = b@.skip(i as int);
            lemma_le_value_bound(rest);
            lemma_pow256_monotonic(rest.len(), 7);
            lemma_pow256_values();
            assert(b@.skip(i - 1).skip(1) =~= rest);
        }
        i = i - 1;
        value = value * 256 + b[i] as u64;
    }
    proof {
        assert(b@.skip(0) =~= b@);
        lemma_le_value_bound(b@);
    }
    value
}

/// The number that at most eight bytes spell, most significant first.
pub fn from_be(b: &[u8]) -> (r: u64)
    requires
        b@.len() <= 8,
    ensures
        r == be_value(b@),
        r < pow256(b@.len()),
{
    let mut i: usize = 0;
    let mut value: u64 = 0;
    while i < b.len()
        invariant
            i <= b@.len() <= 8,
            value == be_value(b@.take(i as int)),
        decreases b@.len() - i,
    {
        proof {
            let done = b@.take(i as int);
            lemma_be_value_bound(done);
            lemma_pow256_monotonic(done.len(), 7);
            lemma_pow256_values();
            assert(b@.take(i + 1).drop_last() =~= done);
        }
        value = value * 256 + b[i] as u64;
        i = i + 1;
    }
    proof {
        assert(b@.take(b@.len() as int) =~= b@);
        lemma_be_value_bound(b@);
    }
    value
}

/// The text that `String::from_utf8_lossy` makes of `bytes`.
pub uninterp spec fn utf8_lossy(bytes: Seq<u8>) -> Seq<char>;

/// Decode bytes as UTF-8, replacing what is not.
///
/// HDF5 permits ASCII and UTF-8 character sets, and real files occasionally
/// carry stray high bytes in ASCII fields, so the decode is lossy rather than
/// failing a whole file over one bad name.
///
/// The call is `String::from_utf8_lossy`. Its result depends on the bytes
/// alone, and valid UTF-8 is taken over unchanged.
#[verifier::external_body]
pub(crate) fn lossy_text(bytes: &[u8]) -> (r: String)
    ensures
        r@ == utf8_lossy(bytes@),
        vstd::utf8::valid_utf8(bytes@) ==> r@ == vstd::utf8::decode_utf8(bytes@),
{
    String::from_utf8_lossy(bytes).into_owned()
}

/// Whether two runs of bytes are the same.
pub fn same_bytes(a: &[u8], b: &[u8]) -> (r: bool)
    ensures
        r == (a@ == b@),
{
    if a.len() != b.len() {
        return false;
    }
    let mut i: usize = 0;
    while i < a.len()
        invariant
            a@.len() == b@.len(),
            i <= a@.len(),
            forall|j: int| 0 <= j < i ==> a@[j] == b@[j],
        decreases a@.len() - i,
    {
        if a[i] != b[i] {
            return false;
        }
        i = i + 1;
    }
    assert(a@ =~= b@);
    true
}

/// What is left of a padded text without the spaces at its end.
pub open spec fn without_trailing_spaces(b: Seq<u8>) -> Seq<u8>
    decreases b.len(),
{
    if b.len() > 0 && b.last() == 0x20 {
        without_trailing_spaces(b.drop_last())
    } else {
        b
    }
}

/// How much of a padded text stands before the spaces at its end.
pub fn trimmed_len(b: &[u8]) -> (r: usize)
    ensures
        r <= b@.len(),
        b@.take(r as int) == without_trailing_spaces(b@),
{
    let mut end: usize = b.len();
    assert(b@.take(end as int) =~= b@);
    while end > 0 && b[end - 1] == 0x20
        invariant
            end <= b@.len(),
            without_trailing_spaces(b@.take(end as int)) == without_trailing_spaces(b@),
        decreases end,
    {
        end = end - 1;
        assert(b@.take(end + 1).drop_last() =~= b@.take(end as int));
    }
    end
}

/// Each element of `width` bytes with its bytes turned round.
pub open spec fn reversed_elements(raw: Seq<u8>, width: nat) -> Seq<u8> {
    Seq::new(raw.len(), |k: int| raw[k / width as int * width + (width - 1 - k % width as int)])
}

/// Turn round the bytes of each element.
pub fn reverse_elements(raw: &Vec<u8>, width: usize) -> (r: Vec<u8>)
    requires
        0 < width,
        raw@.len() % width as nat == 0,
    ensures
        r@ == reversed_elements(raw@, width as nat),
{
    let mut out: Vec<u8> = Vec::with_capacity(raw.len());
    while out.len() < raw.len()
        invariant
            0 < width,
            raw@.len() % width as nat == 0,
            out@.len() <= raw@.len(),
            out@ == reversed_elements(raw@, width as nat).take(out@.len() as int),
        decreases raw@.len() - out@.len(),
    {
        let k: usize = out.len();
        proof {
            let (n, w) = (raw@.len() as int, width as int);
            lemma_fundamental_div_mod(k as int, w);
            lemma_fundamental_div_mod(n, w);
            let (q, m) = (k as int / w, n / w);
            assert(q * w == w * q) by (nonlinear_arith);
            assert(q + 1 <= m) by (nonlinear_arith)
                requires
                    w * q <= k < n == w * m,
                    w > 0,
            ;
            assert(w * q + w <= n) by (nonlinear_arith)
                requires
                    q + 1 <= m,
                    n == w * m,
                    w > 0,
            ;
            assert(n <= usize::MAX) by {
                assert(raw.len() <= usize::MAX);
            }
        }
        out.push(raw[k - k % width + (width - 1 - k % width)]);
        assert(out@ =~= reversed_elements(raw@, width as nat).take(out@.len() as int));
    }
    assert(out@ =~= reversed_elements(raw@, width as nat));
    out
}

} // verus!
