//! What the filter pipeline gives back.

use vstd::prelude::*;

#[allow(unused_imports)]
use crate::bytes::{be_value, le_value};
#[allow(unused_imports)]
use crate::checksum::fletcher32_checksum;
#[allow(unused_imports)]
use crate::error::ErrorView;
#[allow(unused_imports)]
use crate::filters::{
    decoded, lemma_cell, shuffled, shuffles, skipped, undone, unshuffle_undoes_shuffle, unshuffled,
    zlib_decoded, zstd_decoded,
};
#[allow(unused_imports)]
use crate::laws::writing::{be, le, lemma_be_len, lemma_be_read, lemma_le_len, lemma_le_read};
use crate::message::filter::FilterView;
#[allow(unused_imports)]
use vstd::arithmetic::power2::pow2;

verus! {

/// What comes back where nothing fails.
pub type Chunk = std::result::Result<Seq<u8>, ErrorView>;

// ── the byte shuffle ───────────────────────────────────────────────────────

/// Byte `c` of element `r` goes to place `r` among the bytes number `c` of all
/// elements. Bytes behind the last whole element stay where they are.
pub proof fn a_shuffle_gathers_bytes_by_their_place(data: Seq<u8>, size: nat, r: int, c: int)
    requires
        size > 0,
        0 <= r < data.len() / size,
        0 <= c < size,
    ensures
        ({
            let count = (data.len() / size) as int;
            &&& shuffled(data, size).len() == data.len()
            &&& unshuffled(data, size).len() == data.len()
            &&& 0 <= c * count + r < data.len()
            &&& 0 <= r * size + c < data.len()
            &&& shuffled(data, size)[c * count + r] == data[r * size + c]
            &&& unshuffled(data, size)[r * size + c] == data[c * count + r]
        }),
{
    let count = (data.len() / size) as int;
    let s = size as int;
    lemma_cell(c, r, s, count);
    lemma_cell(r, c, count, s);
    assert(count * s <= data.len()) by (nonlinear_arith)
        requires
            count == data.len() as int / s,
            s > 0,
    ;
    assert(s * count == count * s) by (nonlinear_arith);
    if !shuffles(data.len(), size) {
        if s == 1 {
            assert(c == 0);
            assert(0 * count == 0);
            assert(r * 1 == r);
        } else {
            assert(data.len() <= size);
            assert(count <= 1) by (nonlinear_arith)
                requires
                    count == data.len() as int / s,
                    s > 0,
                    data.len() <= s,
            ;
            assert(r == 0 && count == 1);
            assert(c * 1 == c && 0 * s == 0);
        }
    }
}

/// Bytes behind the last whole element stay where they are.
pub proof fn a_shuffle_leaves_the_rest_in_place(data: Seq<u8>, size: nat, i: int)
    requires
        size > 0,
        (data.len() / size) * size <= i < data.len(),
    ensures
        shuffled(data, size)[i] == data[i],
        unshuffled(data, size)[i] == data[i],
{
}

// ── one filter ─────────────────────────────────────────────────────────────

/// Filter `i` of a pipeline is left out where bit `i` of the mask is set.
pub proof fn the_mask_counts_bits_from_the_lowest(filter_mask: u32, i: nat)
    requires
        i < 32,
    ensures
        skipped(filter_mask, i as int) <==> (filter_mask as nat / pow2(i)) % 2 == 1,
{
    let k = i as u32;
    vstd::bits::lemma_u32_shr_is_div(filter_mask, k);
    assert((filter_mask & (1u32 << k) != 0) <==> (filter_mask >> k) % 2 == 1) by (bit_vector)
        requires
            k < 32,
    ;
}

proof fn lemma_one(filter: FilterView, data: Seq<u8>)
    ensures
        decoded(seq![filter], 0, data) == undone(filter, data),
{
    let one = seq![filter];
    assert(one.drop_last() =~= Seq::<FilterView>::empty());
    assert(one.last() == filter);
    assert(0u32 & (1u32 << 0u32) == 0) by (bit_vector);
    assert(!skipped(0, 0));
    match undone(filter, data) {
        Ok(bytes) => {
            assert(decoded(one.drop_last(), 0, bytes) == Chunk::Ok(bytes));
        },
        Err(_) => {},
    }
}

/// The shuffle filter undoes a shuffle of elements as wide as its first parameter says,
/// whatever else it was given.
pub proof fn a_shuffled_chunk_comes_back(filter: FilterView, n: u32, x: Seq<u8>)
    requires
        filter.id == 2,
        filter.client_data.len() > 0,
        filter.client_data[0] == n,
    ensures
        decoded(seq![filter], 0, shuffled(x, n as nat)) == Chunk::Ok(x),
{
    lemma_one(filter, shuffled(x, n as nat));
    unshuffle_undoes_shuffle(x, n as nat);
}

/// A shuffle filter that was given no width leaves a chunk as it is.
pub proof fn a_shuffle_without_a_width_changes_nothing(filter: FilterView, x: Seq<u8>)
    requires
        filter.id == 2,
        filter.client_data.len() == 0,
    ensures
        decoded(seq![filter], 0, x) == Chunk::Ok(x),
{
    lemma_one(filter, x);
}

/// Filter number one is the zlib decoder.
pub proof fn a_deflated_chunk_is_inflated(filter: FilterView, x: Seq<u8>)
    requires
        filter.id == 1,
    ensures
        zlib_decoded(x) matches Ok(y) ==> decoded(seq![filter], 0, x) == Chunk::Ok(y),
        zlib_decoded(x) is Err ==> decoded(seq![filter], 0, x) is Err,
{
    lemma_one(filter, x);
}

/// Filter number 32015 is the zstd decoder.
pub proof fn a_zstd_chunk_is_decompressed(filter: FilterView, x: Seq<u8>)
    requires
        filter.id == 32015,
    ensures
        zstd_decoded(x) matches Ok(y) ==> decoded(seq![filter], 0, x) == Chunk::Ok(y),
        zstd_decoded(x) is Err ==> decoded(seq![filter], 0, x) is Err,
{
    lemma_one(filter, x);
}

/// Filter number three takes the checksum off a chunk that carries its own, in either
/// byte order, and refuses any other.
pub proof fn a_checksum_guards_its_chunk(filter: FilterView, x: Seq<u8>, sum: u32)
    requires
        filter.id == 3,
    ensures
        ({
            let little = decoded(seq![filter], 0, x + le(sum as nat, 4));
            let big = decoded(seq![filter], 0, x + be(sum as nat, 4));
            &&& sum == fletcher32_checksum(x) ==> little == Chunk::Ok(x) && big == Chunk::Ok(x)
            &&& little is Ok ==> little == Chunk::Ok(x) && (sum == fletcher32_checksum(x)
                || be_value(le(sum as nat, 4)) == fletcher32_checksum(x))
            &&& big is Ok ==> big == Chunk::Ok(x) && (sum == fletcher32_checksum(x) || le_value(
                be(sum as nat, 4),
            ) == fletcher32_checksum(x))
        }),
{
    crate::bytes::lemma_pow256_values();
    let (s, t) = (le(sum as nat, 4), be(sum as nat, 4));
    lemma_le_len(sum as nat, 4);
    lemma_be_len(sum as nat, 4);
    lemma_le_read(sum as nat, 4);
    lemma_be_read(sum as nat, 4);
    let n = x.len() as int;
    assert((x + s).take(n) =~= x && (x + s).skip(n) =~= s);
    assert((x + t).take(n) =~= x && (x + t).skip(n) =~= t);
    lemma_one(filter, x + s);
    lemma_one(filter, x + t);
}

/// A chunk too short for a checksum is refused.
pub proof fn a_chunk_without_room_for_its_checksum_is_refused(filter: FilterView, x: Seq<u8>)
    requires
        filter.id == 3,
        x.len() < 4,
    ensures
        decoded(seq![filter], 0, x) is Err,
{
    lemma_one(filter, x);
}

// ── several filters ────────────────────────────────────────────────────────

/// Writing applies the filters from the first to the last; reading undoes them from the
/// last to the first. Where the mask leaves the last filter out, its part is left out.
pub proof fn a_pipeline_is_undone_from_its_end(
    filters: Seq<FilterView>,
    filter: FilterView,
    filter_mask: u32,
    data: Seq<u8>,
)
    requires
        filters.len() < 32,
    ensures
        ({
            let whole = decoded(filters.push(filter), filter_mask, data);
            let alone = decoded(seq![filter], 0, data);
            if (filter_mask as nat / pow2(filters.len())) % 2 == 1 {
                whole == decoded(filters, filter_mask, data)
            } else {
                match alone {
                    Ok(between) => whole == decoded(filters, filter_mask, between),
                    Err(e) => whole == Chunk::Err(e),
                }
            }
        }),
{
    the_mask_counts_bits_from_the_lowest(filter_mask, filters.len());
    lemma_one(filter, data);
    assert(filters.push(filter).drop_last() =~= filters);
    assert(filters.push(filter).last() == filter);
}

} // verus!
