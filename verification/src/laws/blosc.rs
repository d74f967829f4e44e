//! Blosc containers and the blosclz codec.

use vstd::prelude::*;

#[allow(unused_imports)]
use crate::cursor::u32_in;
#[allow(unused_imports)]
use crate::error::ErrorView;
#[allow(unused_imports)]
use crate::filters::{
    bit, bit_at, bitshuffles, blosc_block, blosc_blocks, blosc_decoded, blosc_finished, blosc_header,
    blosc_want, cell, inflated, lemma_unbitshuffled_unique, long_length, match_distance,
    match_length, repeated, shuffled, transposed, unbitshuffled, unbitshuffled_bytes, unblosced,
    unblosclzed, unlz4ed, unshuffle_undoes_shuffle, unshuffled, zstd_decoded, zstd_outcome,
    BloscHeader,
};
#[allow(unused_imports)]
use crate::laws::datatypes::{four, lemma_four};
#[allow(unused_imports)]
use crate::laws::writing::{holds, joined};

verus! {

// ── blosclz ────────────────────────────────────────────────────────────────

/// A token below 32 says that one more byte than it counts is copied as it stands. The
/// first token of a block always means that, by its low five bits.
pub proof fn a_literal_run_is_copied(data: Seq<u8>, p: int, first: bool, out: Seq<u8>, run: Seq<u8>)
    requires
        1 <= run.len() <= 32,
        0 <= p,
        holds(data, p + 1, run),
        data[p] % 32 == run.len() - 1,
        first || data[p] < 32,
    ensures
        unblosclzed(data, p, first, out) == unblosclzed(
            data,
            p + 1 + run.len(),
            false,
            out + run,
        ),
{
}

/// How far back a match looks, as the low bits of its token and the byte or three behind
/// its length say it, and where that ends.
pub open spec fn looks_back(data: Seq<u8>, p: int, q: int, distance: int, end: int) -> bool {
    let near = (data[p] % 32) * 0x100 + data[q];
    if near < 0x1fff {
        distance == near + 1 && end == q + 1 && end <= data.len()
    } else {
        distance == 0x2000 + 0x100 * data[q + 1] + data[q + 2] && end == q + 3 && end <= data.len()
    }
}

/// `more` goes on from `out` by repeating what stands `distance` bytes before.
pub open spec fn goes_on(out: Seq<u8>, distance: int, length: int, more: Seq<u8>) -> bool {
    &&& more.len() == out.len() + length
    &&& forall|i: int| 0 <= i < out.len() ==> #[trigger] more[i] == out[i]
    &&& forall|i: int| out.len() <= i < more.len() ==> #[trigger] more[i] == more[i - distance]
}

proof fn lemma_goes_on(out: Seq<u8>, distance: int, length: int)
    requires
        1 <= distance <= out.len(),
        0 <= length,
    ensures
        goes_on(out, distance, length, repeated(out, distance, length)),
{
    let more = repeated(out, distance, length);
    assert forall|i: int| out.len() <= i < more.len() implies #[trigger] more[i] == more[i
        - distance] by {
        let j = i - out.len();
        assert(more[i] == out[out.len() - distance + j % distance]);
        if j < distance {
            vstd::arithmetic::div_mod::lemma_small_mod(j as nat, distance as nat);
        } else {
            vstd::arithmetic::div_mod::lemma_mod_sub_multiples_vanish(j, distance);
            assert((j - distance) % distance == j % distance);
            assert(more[i - distance] == out[out.len() - distance + (j - distance) % distance]);
        }
    }
}

/// A token from 32 on repeats what came before: two bytes more than its high three bits
/// say, where those are not full.
pub proof fn a_short_match_repeats_what_came_before(
    data: Seq<u8>,
    p: int,
    out: Seq<u8>,
    distance: int,
    end: int,
)
    requires
        0 <= p,
        p + 1 < data.len(),
        32 <= data[p] < 224,
        looks_back(data, p, p + 1, distance, end),
        distance <= out.len(),
    ensures
        exists|more: Seq<u8>| #[trigger]
            goes_on(out, distance, data[p] as int / 32 + 2, more) && unblosclzed(
                data,
                p,
                false,
                out,
            ) == unblosclzed(data, end, false, more),
{
    let length = data[p] as int / 32 + 2;
    lemma_goes_on(out, distance, length);
    assert(match_length(data, p + 1, data[p] as int) == Ok::<(int, int), ErrorView>(
        (length, p + 1),
    ));
    assert(match_distance(data, p + 1, data[p] as int) == Ok::<(int, int), ErrorView>(
        (distance - 1, end),
    ));
    assert(goes_on(out, distance, length, repeated(out, distance, length)));
}

proof fn lemma_long(data: Seq<u8>, p: int, full: nat, length: int)
    requires
        0 <= p,
        p + full < data.len(),
        forall|i: int| p <= i < p + full ==> data[i] == 255,
        data[p + full] != 255,
    ensures
        long_length(data, p, length) == Ok::<(int, int), ErrorView>(
            (length + 255 * full + data[p + full], p + full + 1),
        ),
    decreases full,
{
    if full > 0 {
        lemma_long(data, p + 1, (full - 1) as nat, length + 255);
    }
}

/// Where the high three bits are full, bytes behind the token add to the length, as long
/// as they are 255 and one more.
pub proof fn a_long_match_repeats_what_came_before(
    data: Seq<u8>,
    p: int,
    out: Seq<u8>,
    full: nat,
    distance: int,
    end: int,
)
    requires
        0 <= p,
        p + full + 2 < data.len(),
        224 <= data[p],
        forall|i: int| p + 1 <= i < p + 1 + full ==> data[i] == 255,
        data[p + 1 + full] != 255,
        9 + 255 * full + data[p + 1 + full] <= usize::MAX,
        looks_back(data, p, p + full + 2, distance, end),
        distance <= out.len(),
    ensures
        exists|more: Seq<u8>| #[trigger]
            goes_on(out, distance, 9 + 255 * full + data[p + 1 + full], more) && unblosclzed(
                data,
                p,
                false,
                out,
            ) == unblosclzed(data, end, false, more),
{
    let length = 9 + 255 * full + data[p + 1 + full];
    lemma_long(data, p + 1, full, 7);
    lemma_goes_on(out, distance, length);
    assert(data[p] as int / 32 == 7);
    assert(match_length(data, p + 1, data[p] as int) == Ok::<(int, int), ErrorView>(
        (length, p + full + 2),
    ));
    assert(match_distance(data, p + full + 2, data[p] as int) == Ok::<(int, int), ErrorView>(
        (distance - 1, end),
    ));
    assert(goes_on(out, distance, length, repeated(out, distance, length)));
}

/// A match cannot look back past the start of the block.
pub proof fn a_match_before_the_start_is_refused(
    data: Seq<u8>,
    p: int,
    out: Seq<u8>,
    distance: int,
    end: int,
)
    requires
        0 <= p,
        p + 1 < data.len(),
        32 <= data[p] < 224,
        looks_back(data, p, p + 1, distance, end),
        distance > out.len(),
    ensures
        unblosclzed(data, p, false, out) is Err,
{
    assert(match_distance(data, p + 1, data[p] as int) == Ok::<(int, int), ErrorView>(
        (distance - 1, end),
    ));
}

/// A block ends with its last token.
pub proof fn a_block_ends_with_its_last_token(data: Seq<u8>, first: bool, out: Seq<u8>)
    ensures
        unblosclzed(data, data.len() as int, first, out) == Ok::<Seq<u8>, ErrorView>(out),
{
}

// ── containers ─────────────────────────────────────────────────────────────

/// The codec of a container is told by its number.
pub proof fn a_codec_is_known_by_its_number(codec: u8, body: Seq<u8>, want: nat)
    ensures
        codec == 0 ==> blosc_decoded(codec, body, want) == unblosclzed(
            body,
            0,
            true,
            Seq::empty(),
        ),
        codec == 1 || codec == 2 ==> blosc_decoded(codec, body, want) == unlz4ed(body, want),
        codec == 4 ==> blosc_decoded(codec, body, want) == inflated(body),
        codec == 5 ==> blosc_decoded(codec, body, want) == zstd_outcome(zstd_decoded(body)),
        codec == 3 || codec > 5 ==> (blosc_decoded(codec, body, want) matches Err(e) && e
            is Unsupported),
{
}

proof fn lemma_u32_in(b: Seq<u8>, p: int)
    requires
        0 <= p,
        p + 4 <= b.len(),
    ensures
        u32_in(b, p) == four(b, p),
        0 <= four(b, p) <= u32::MAX,
{
    lemma_four(b, p);
}

/// A whole header: version 2, the size that was compressed, and the size of a block.
pub open spec fn has_container(data: Seq<u8>) -> bool {
    &&& data.len() >= 16
    &&& data[0] == 2
    &&& four(data, 8) > 0
    &&& four(data, 12) <= data.len()
}

/// Block `k` is `body`: the table behind the header says where, and its length stands
/// before it.
pub open spec fn is_block(data: Seq<u8>, k: int, body: Seq<u8>) -> bool {
    let at = four(data, 16 + 4 * k);
    &&& at + 4 <= data.len()
    &&& four(data, at) == body.len()
    &&& holds(data, at + 4, body)
}

/// Block `k` decompresses to `part`, which fills it.
pub open spec fn gives(data: Seq<u8>, k: int, body: Seq<u8>, part: Seq<u8>) -> bool {
    &&& is_block(data, k, body)
    &&& blosc_decoded(data[2] / 32, body, part.len()) == Ok::<Seq<u8>, ErrorView>(part)
}

/// The blocks from `k` on, each of which is full but the last.
pub open spec fn are_blocks(
    data: Seq<u8>,
    k: int,
    bodies: Seq<Seq<u8>>,
    parts: Seq<Seq<u8>>,
) -> bool
    decreases parts.len(),
{
    &&& bodies.len() == parts.len()
    &&& parts.len() > 0 ==> {
        &&& gives(data, k, bodies[0], parts[0])
        &&& parts.len() > 1 ==> parts[0].len() == four(data, 8)
        &&& parts.len() == 1 ==> 0 < parts[0].len() <= four(data, 8)
        &&& are_blocks(data, k + 1, bodies.skip(1), parts.skip(1))
    }
}

proof fn lemma_parts(data: Seq<u8>, k: int, bodies: Seq<Seq<u8>>, parts: Seq<Seq<u8>>)
    requires
        are_blocks(data, k, bodies, parts),
    ensures
        parts.len() > 0 ==> four(data, 8) * (parts.len() - 1) < joined(parts).len() <= four(data, 8)
            * parts.len(),
        parts.len() == 0 ==> joined(parts).len() == 0,
    decreases parts.len(),
{
    if parts.len() > 0 {
        let s = four(data, 8);
        lemma_parts(data, k + 1, bodies.skip(1), parts.skip(1));
        let n = parts.len() as int;
        assert(s * n == s * (n - 1) + s && (n >= 2 ==> s * (n - 1) == s * (n - 2) + s))
            by (nonlinear_arith);
        if n == 1 {
            assert(s * 0 == 0);
            assert(joined(parts.skip(1)).len() == 0);
        }
    }
}

#[verifier::spinoff_prover]
#[verifier::rlimit(40)]
proof fn lemma_blocks(
    data: Seq<u8>,
    h: BloscHeader,
    k: int,
    bodies: Seq<Seq<u8>>,
    parts: Seq<Seq<u8>>,
    out: Seq<u8>,
)
    requires
        0 <= k,
        h.blocksize == four(data, 8) > 0,
        h.flags == data[2],
        h.nbytes == out.len() + joined(parts).len(),
        k + parts.len() == h.block_count(),
        16 + 4 * h.block_count() <= data.len(),
        are_blocks(data, k, bodies, parts),
    ensures
        blosc_blocks(data, h, k, out) == Ok::<Seq<u8>, ErrorView>(out + joined(parts)),
    decreases parts.len(),
{
    if parts.len() > 0 {
        let (body, part) = (bodies[0], parts[0]);
        let at = four(data, 16 + 4 * k);
        lemma_u32_in(data, 16 + 4 * k);
        lemma_u32_in(data, at);
        assert(blosc_block(data, k) == Ok::<Seq<u8>, ErrorView>(body));
        lemma_parts(data, k + 1, bodies.skip(1), parts.skip(1));
        assert(joined(parts).len() == part.len() + joined(parts.skip(1)).len());
        if parts.len() > 1 {
            assert(four(data, 8) * (parts.len() - 2) >= 0) by (nonlinear_arith)
                requires
                    four(data, 8) > 0,
                    parts.len() > 1,
            ;
        }
        assert(blosc_want(h, out.len()) == Ok::<nat, ErrorView>(part.len()));
        lemma_blocks(data, h, k + 1, bodies.skip(1), parts.skip(1), out + part);
        assert((out + part) + joined(parts.skip(1)) =~= out + joined(parts));
    } else {
        assert(out + joined(parts) =~= out);
    }
}

/// A container gives its blocks one behind the other.
#[verifier::spinoff_prover]
#[verifier::rlimit(40)]
proof fn lemma_container(data: Seq<u8>, bodies: Seq<Seq<u8>>, parts: Seq<Seq<u8>>)
    requires
        has_container(data),
        four(data, 4) == joined(parts).len(),
        16 + 4 * parts.len() <= data.len(),
        are_blocks(data, 0, bodies, parts),
    ensures
        blosc_header(data) matches Ok(h) && {
            &&& h.flags == data[2]
            &&& h.typesize == data[3]
            &&& h.nbytes == joined(parts).len()
            &&& blosc_blocks(data, h, 0, Seq::empty()) == Ok::<Seq<u8>, ErrorView>(joined(parts))
        },
{
    lemma_u32_in(data, 4);
    lemma_u32_in(data, 8);
    lemma_u32_in(data, 12);
    lemma_parts(data, 0, bodies, parts);
    let h = BloscHeader {
        flags: data[2],
        typesize: data[3],
        nbytes: u32_in(data, 4),
        blocksize: u32_in(data, 8),
    };
    let s = four(data, 8);
    let n = parts.len() as int;
    let total = four(data, 4);
    assert((total + s - 1) / s == n) by (nonlinear_arith)
        requires
            s > 0,
            n >= 0,
            n == 0 ==> total == 0,
            n > 0 ==> s * (n - 1) < total <= s * n,
    ;
    assert(h.block_count() == n);
    lemma_blocks(data, h, 0, bodies, parts, Seq::empty());
    assert(Seq::<u8>::empty() + joined(parts) =~= joined(parts));
}

/// The bits of the elements of `x` are gathered in `y`: the first of each element, then
/// the second of each, and so on. Bits count from the lowest of a byte.
pub open spec fn bits_gathered(x: Seq<u8>, y: Seq<u8>, size: nat) -> bool {
    let elements = x.len() as int / size as int;
    &&& y.len() == x.len()
    &&& forall|e: int, r: int|
        #![trigger bit_numbered(x, e * (size * 8) + r)]
        #![trigger bit_numbered(y, r * elements + e)]
        0 <= e < elements && 0 <= r < size * 8 ==> bit_numbered(x, e * (size * 8) + r)
            == bit_numbered(y, r * elements + e)
}

/// Bit `n` of all the bits of `s`.
pub open spec fn bit_numbered(s: Seq<u8>, n: int) -> bool {
    (s[n / 8] as int / weight(n % 8)) % 2 == 1
}

/// Two to the power `k`, for a bit of a byte.
pub open spec fn weight(k: int) -> int {
    if k == 0 {
        1
    } else if k == 1 {
        2
    } else if k == 2 {
        4
    } else if k == 3 {
        8
    } else if k == 4 {
        16
    } else if k == 5 {
        32
    } else if k == 6 {
        64
    } else {
        128
    }
}

proof fn lemma_bit(s: Seq<u8>, n: int)
    requires
        0 <= n < 8 * s.len(),
    ensures
        bit_at(s, n) == bit_numbered(s, n),
{
    let b = s[n / 8];
    assert(bit(b, 0) == (b % 2 == 1) && bit(b, 1) == ((b / 2) % 2 == 1) && bit(b, 2) == ((b / 4) % 2
        == 1) && bit(b, 3) == ((b / 8) % 2 == 1) && bit(b, 4) == ((b / 16) % 2 == 1) && bit(b, 5) == ((
    b / 32) % 2 == 1) && bit(b, 6) == ((b / 64) % 2 == 1) && bit(b, 7) == ((b / 128) % 2 == 1))
        by (bit_vector);
}

proof fn lemma_gathered(x: Seq<u8>, y: Seq<u8>, size: nat)
    requires
        bitshuffles(x.len(), size),
        bits_gathered(x, y, size),
    ensures
        unbitshuffled(y, x, size),
{
    let elements = x.len() as int / size as int;
    let rows = (size * 8) as int;
    assert(x.len() % size == 0);
    vstd::arithmetic::div_mod::lemma_fundamental_div_mod(x.len() as int, size as int);
    assert forall|r: int, c: int| 0 <= r < rows && 0 <= c < elements implies #[trigger] cell(
        x,
        rows,
        c,
        r,
    ) == cell(y, elements, r, c) by {
        assert(0 <= c * rows + r < 8 * x.len() && 0 <= r * elements + c < 8 * x.len())
            by (nonlinear_arith)
            requires
                0 <= r < rows,
                0 <= c < elements,
                rows == size * 8,
                x.len() == size * elements,
        ;
        lemma_bit(x, c * rows + r);
        lemma_bit(y, r * elements + c);
        assert(bit_numbered(x, c * (size * 8) + r) == bit_numbered(y, r * elements + c));
    }
}

/// What was compressed block by block comes back. Bit 2 of the flags says that its bits
/// had been gathered first, element by element; else bit 0 says that its bytes had been.
pub proof fn a_container_comes_back(
    data: Seq<u8>,
    bodies: Seq<Seq<u8>>,
    parts: Seq<Seq<u8>>,
    x: Seq<u8>,
)
    requires
        has_container(data),
        four(data, 4) == joined(parts).len(),
        16 + 4 * parts.len() <= data.len(),
        are_blocks(data, 0, bodies, parts),
        (data[2] / 4) % 2 == 1 ==> bitshuffles(x.len(), data[3] as nat) && bits_gathered(
            x,
            joined(parts),
            data[3] as nat,
        ),
        (data[2] / 4) % 2 == 0 && data[2] % 2 == 0 ==> joined(parts) == x,
        (data[2] / 4) % 2 == 0 && data[2] % 2 == 1 ==> joined(parts) == shuffled(
            x,
            data[3] as nat,
        ),
    ensures
        unblosced(data) == Ok::<Seq<u8>, ErrorView>(x),
{
    lemma_container(data, bodies, parts);
    let flags = data[2];
    assert((flags & 0x04 != 0) == ((flags / 4) % 2 == 1) && (flags & 0x01 != 0) == (flags % 2
        == 1)) by (bit_vector);
    if (data[2] / 4) % 2 == 1 {
        lemma_gathered(x, joined(parts), data[3] as nat);
        lemma_unbitshuffled_unique(joined(parts), x, data[3] as nat);
    } else {
        unshuffle_undoes_shuffle(x, data[3] as nat);
    }
}

} // verus!
