//! Chunk filters.
//!
//! A writer applies a chain of filters to each chunk. A reader undoes them in
//! reverse order. netcdf-c writes shuffle, then deflate. A reader inflates
//! first, then unshuffles.
//!
//! Every function here is pure. Bytes go in. Bytes come out. Nothing is shared.
//! Many threads can decode different chunks at the same time.

use std::io::Read;

use vstd::arithmetic::div_mod::lemma_fundamental_div_mod;
use vstd::arithmetic::div_mod::lemma_fundamental_div_mod_converse;
use vstd::prelude::*;
use vstd::slice::{slice_subrange, slice_to_vec};

use crate::bytes::{from_be, from_le};
#[allow(unused_imports)]
use crate::bytes::{be_value, le_value, lemma_pow256_values};
use crate::checksum;
#[allow(unused_imports)]
use crate::checksum::fletcher32_checksum;
#[allow(unused_imports)]
use crate::cursor::u32_in;
use crate::error::{Error, Result};
#[allow(unused_imports)]
use crate::error::{seen, ErrorView};
use crate::message::filter::{id, Filter, FilterPipeline};
#[allow(unused_imports)]
use crate::message::filter::FilterView;
use crate::text::{add_number, add_text, joined, numbered};
#[allow(unused_imports)]
use crate::text::decimal;

verus! {

broadcast use crate::views::group_views;

// ── byte shuffle ───────────────────────────────────────────────────────────

/// Whether the byte shuffle moves anything in `len` bytes of `size`-byte elements.
pub open spec fn shuffles(len: nat, size: nat) -> bool {
    size > 1 && len > size
}

/// The byte shuffle: every first byte of an element, then every second byte,
/// and so on. Trailing bytes that do not fill an element stay in place.
pub open spec fn shuffled(data: Seq<u8>, size: nat) -> Seq<u8> {
    if !shuffles(data.len(), size) {
        data
    } else {
        let count = (data.len() / size) as int;
        Seq::new(
            data.len(),
            |i: int|
                if i < count * size {
                    data[(i % count) * size + i / count]
                } else {
                    data[i]
                },
        )
    }
}

/// The byte shuffle undone: each element gathered from one stream for each of
/// its byte positions.
pub open spec fn unshuffled(data: Seq<u8>, size: nat) -> Seq<u8> {
    if !shuffles(data.len(), size) {
        data
    } else {
        let count = (data.len() / size) as int;
        Seq::new(
            data.len(),
            |i: int|
                if i < count * size {
                    data[(i % size as int) * count + i / size as int]
                } else {
                    data[i]
                },
        )
    }
}

/// Where the cell at row `r` and column `c` of a `rows` by `cols` table stands.
pub proof fn lemma_cell(r: int, c: int, rows: int, cols: int)
    requires
        0 <= r < rows,
        0 <= c < cols,
    ensures
        0 <= r * cols + c < rows * cols,
        (r * cols + c) / cols == r,
        (r * cols + c) % cols == c,
{
    assert(0 <= r * cols + c < rows * cols) by (nonlinear_arith)
        requires
            0 <= r < rows,
            0 <= c < cols,
    ;
    lemma_fundamental_div_mod_converse(r * cols + c, cols, r, c);
}

/// Row and column of the cell that stands at `i` in a `rows` by `cols` table.
proof fn lemma_row_and_column(i: int, rows: int, cols: int)
    requires
        0 < cols,
        0 <= i < rows * cols,
    ensures
        0 <= i / cols < rows,
        0 <= i % cols < cols,
        i == (i / cols) * cols + i % cols,
{
    lemma_fundamental_div_mod(i, cols);
    let q = i / cols;
    assert(0 <= q < rows && i == q * cols + i % cols) by (nonlinear_arith)
        requires
            0 < cols,
            0 <= i < rows * cols,
            i == cols * q + i % cols,
            0 <= i % cols < cols,
    ;
}

/// The whole elements of `len` bytes fit in them, and there is at least one.
proof fn lemma_whole_elements(len: nat, size: nat)
    requires
        shuffles(len, size),
    ensures
        1 <= len / size,
        (len / size) * size <= len,
{
    lemma_fundamental_div_mod(len as int, size as int);
    let q = len as int / size as int;
    assert(q >= 1 && q * size <= len) by (nonlinear_arith)
        requires
            size > 1,
            len > size,
            len == size * q + len as int % size as int,
            0 <= len as int % size as int,
            (len as int % size as int) < size,
    ;
}

/// Undoing the byte shuffle gives back what was shuffled, whatever the element
/// size and whether or not it divides the length.
pub proof fn unshuffle_undoes_shuffle(data: Seq<u8>, size: nat)
    ensures
        unshuffled(shuffled(data, size), size) == data,
{
    if shuffles(data.len(), size) {
        let count = (data.len() / size) as int;
        let s = shuffled(data, size);
        lemma_whole_elements(data.len(), size);
        assert forall|i: int| 0 <= i < data.len() implies unshuffled(s, size)[i] == data[i] by {
            if i < count * size {
                lemma_row_and_column(i, count, size as int);
                let e = i / size as int;
                let k = i % size as int;
                lemma_cell(k, e, size as int, count);
                assert(k * count + e < count * size) by (nonlinear_arith)
                    requires
                        k * count + e < size * count,
                ;
                assert(s[k * count + e] == data[e * size + k]);
            }
        }
        assert(unshuffled(s, size) =~= data);
    }
}

/// Shuffling gives back what was unshuffled.
pub proof fn shuffle_undoes_unshuffle(data: Seq<u8>, size: nat)
    ensures
        shuffled(unshuffled(data, size), size) == data,
{
    if shuffles(data.len(), size) {
        let count = (data.len() / size) as int;
        let s = unshuffled(data, size);
        lemma_whole_elements(data.len(), size);
        assert forall|i: int| 0 <= i < data.len() implies shuffled(s, size)[i] == data[i] by {
            if i < count * size {
                assert(i < size * count) by (nonlinear_arith)
                    requires
                        i < count * size,
                ;
                lemma_row_and_column(i, size as int, count);
                let k = i / count;
                let e = i % count;
                lemma_cell(e, k, count, size as int);
                assert(s[e * size + k] == data[k * count + e]);
            }
        }
        assert(shuffled(s, size) =~= data);
    }
}

/// Copy what stands behind the whole elements.
fn push_rest(out: &mut Vec<u8>, data: &[u8], Ghost(whole): Ghost<Seq<u8>>)
    requires
        old(out)@.len() <= data@.len() == whole.len(),
        old(out)@ == whole.take(old(out)@.len() as int),
        forall|i: int| old(out)@.len() <= i < whole.len() ==> whole[i] == data@[i],
    ensures
        final(out)@ == whole,
{
    while out.len() < data.len()
        invariant
            old(out)@.len() <= out@.len() <= data@.len() == whole.len(),
            out@ == whole.take(out@.len() as int),
            forall|i: int| old(out)@.len() <= i < whole.len() ==> whole[i] == data@[i],
        decreases data@.len() - out@.len(),
    {
        let i: usize = out.len();
        out.push(data[i]);
        assert(out@ =~= whole.take(out@.len() as int));
    }
    assert(whole.take(whole.len() as int) =~= whole);
}

/// Undo the byte shuffle.
///
/// The shuffle filter groups bytes by significance: every first byte of an
/// element, then every second byte, and so on. Trailing bytes that do not fill
/// a whole element are left in place, so they are copied straight across.
///
/// Each element is gathered from one stream for each of its byte positions, so
/// the output is written straight through and every read runs forwards.
pub fn unshuffle(data: &[u8], element_size: usize) -> (r: Vec<u8>)
    ensures
        r@ == unshuffled(data@, element_size as nat),
{
    if element_size <= 1 || data.len() <= element_size {
        return slice_to_vec(data);
    }
    let element_count: usize = data.len() / element_size;
    let ghost whole = unshuffled(data@, element_size as nat);
    let ghost size = element_size as int;
    let ghost count = element_count as int;
    proof {
        lemma_whole_elements(data@.len(), element_size as nat);
    }
    let mut out: Vec<u8> = Vec::with_capacity(data.len());
    let mut element: usize = 0;
    assert(whole.take(0) =~= Seq::<u8>::empty());
    assert(0 * size == 0) by (nonlinear_arith);
    while element < element_count
        invariant
            shuffles(data@.len(), element_size as nat),
            size == element_size,
            count == element_count == data@.len() / element_size as nat,
            count * size <= data@.len() <= usize::MAX,
            whole == unshuffled(data@, element_size as nat),
            element <= element_count,
            out@.len() == element * size,
            out@ == whole.take(out@.len() as int),
        decreases element_count - element,
    {
        let mut k: usize = 0;
        // The stream of the k-th bytes starts at `k * element_count`.
        let mut at: usize = element;
        while k < element_size
            invariant
                shuffles(data@.len(), element_size as nat),
                size == element_size,
                count == element_count == data@.len() / element_size as nat,
                count * size <= data@.len() <= usize::MAX,
                whole == unshuffled(data@, element_size as nat),
                element < element_count,
                k <= element_size,
                k < element_size ==> at == k * count + element,
                out@.len() == element * size + k,
                out@ == whole.take(out@.len() as int),
            decreases element_size - k,
        {
            proof {
                lemma_cell(k as int, element as int, size, count);
                lemma_cell(element as int, k as int, count, size);
                assert(size * count == count * size) by (nonlinear_arith);
                assert((k + 1) * count + element == k * count + element + count) by (nonlinear_arith);
                if k + 1 < element_size {
                    lemma_cell(k + 1, element as int, size, count);
                }
                assert((element + 1) * size == element * size + size) by (nonlinear_arith);
            }
            out.push(data[at]);
            assert(out@ =~= whole.take(out@.len() as int));
            k = k + 1;
            if k < element_size {
                at = at + element_count;
            }
        }
        proof {
            assert((element + 1) * size == element * size + size) by (nonlinear_arith);
        }
        element = element + 1;
    }
    // Any remainder was never shuffled.
    push_rest(&mut out, data, Ghost(whole));
    out
}

/// Apply the byte shuffle. Present so tests can round-trip.
pub fn shuffle(data: &[u8], element_size: usize) -> (r: Vec<u8>)
    ensures
        r@ == shuffled(data@, element_size as nat),
{
    if element_size <= 1 || data.len() <= element_size {
        return slice_to_vec(data);
    }
    let element_count: usize = data.len() / element_size;
    let ghost whole = shuffled(data@, element_size as nat);
    let ghost size = element_size as int;
    let ghost count = element_count as int;
    proof {
        lemma_whole_elements(data@.len(), element_size as nat);
    }
    let mut out: Vec<u8> = Vec::with_capacity(data.len());
    let mut k: usize = 0;
    assert(whole.take(0) =~= Seq::<u8>::empty());
    assert(0 * count == 0) by (nonlinear_arith);
    assert(size * count == count * size) by (nonlinear_arith);
    while k < element_size
        invariant
            shuffles(data@.len(), element_size as nat),
            size == element_size,
            count == element_count == data@.len() / element_size as nat,
            size * count == count * size <= data@.len() <= usize::MAX,
            whole == shuffled(data@, element_size as nat),
            k <= element_size,
            out@.len() == k * count,
            out@ == whole.take(out@.len() as int),
        decreases element_size - k,
    {
        let mut element: usize = 0;
        let mut at: usize = k;
        while element < element_count
            invariant
                shuffles(data@.len(), element_size as nat),
                size == element_size,
                count == element_count == data@.len() / element_size as nat,
                size * count == count * size <= data@.len() <= usize::MAX,
                whole == shuffled(data@, element_size as nat),
                k < element_size,
                element <= element_count,
                element < element_count ==> at == element * size + k,
                out@.len() == k * count + element,
                out@ == whole.take(out@.len() as int),
            decreases element_count - element,
        {
            proof {
                lemma_cell(k as int, element as int, size, count);
                lemma_cell(element as int, k as int, count, size);
                assert((element + 1) * size + k == element * size + k + size) by (nonlinear_arith);
                if element + 1 < element_count {
                    lemma_cell(element + 1, k as int, count, size);
                }
            }
            out.push(data[at]);
            assert(out@ =~= whole.take(out@.len() as int));
            element = element + 1;
            if element < element_count {
                at = at + element_size;
            }
        }
        proof {
            assert((k + 1) * count == k * count + count) by (nonlinear_arith);
        }
        k = k + 1;
    }
    push_rest(&mut out, data, Ghost(whole));
    out
}

// ── fletcher32 ─────────────────────────────────────────────────────────────

/// The chunk in front of its Fletcher-32 checksum. HDF5 writes the checksum in
/// the writing machine's byte order, so either orientation counts.
pub open spec fn fletcher32_stripped(data: Seq<u8>) -> std::result::Result<Seq<u8>, ErrorView> {
    if data.len() < 4 {
        Err(ErrorView::Malformed("chunk is too short to carry a fletcher32 checksum"@))
    } else {
        let split = data.len() - 4;
        let payload = data.take(split);
        let tail = data.skip(split);
        let computed = fletcher32_checksum(payload);
        if computed == le_value(tail) || computed == be_value(tail) {
            Ok(payload)
        } else {
            Err(
                ErrorView::ChecksumMismatch {
                    what: "chunk fletcher32"@,
                    stored: le_value(tail) as u32,
                    computed,
                },
            )
        }
    }
}

/// A payload followed by its checksum, in either byte order, comes back whole.
pub proof fn fletcher32_accepts_either_order(payload: Seq<u8>, tail: Seq<u8>)
    requires
        tail.len() == 4,
        le_value(tail) == fletcher32_checksum(payload) || be_value(tail) == fletcher32_checksum(
            payload,
        ),
    ensures
        fletcher32_stripped(payload + tail) == std::result::Result::<Seq<u8>, ErrorView>::Ok(
            payload,
        ),
{
    let data = payload + tail;
    assert(data.take(data.len() - 4) =~= payload);
    assert(data.skip(data.len() - 4) =~= tail);
}

/// Check the trailing Fletcher-32 checksum and remove it.
///
/// HDF5 writes this checksum in the writing machine's byte order, which is a
/// known wart of the format. A reader therefore accepts either orientation
/// before declaring the chunk corrupt.
pub fn verify_and_strip_fletcher32(data: Vec<u8>) -> (r: Result<Vec<u8>>)
    ensures
        seen(r) == fletcher32_stripped(data@),
{
    if data.len() < 4 {
        return Err(Error::malformed("chunk is too short to carry a fletcher32 checksum"));
    }
    let split: usize = data.len() - 4;
    let tail = slice_subrange(data.as_slice(), split, data.len());
    let payload = slice_subrange(data.as_slice(), 0, split);
    proof {
        lemma_pow256_values();
        assert(tail@ =~= data@.skip(split as int));
        assert(payload@ =~= data@.take(split as int));
    }
    let stored_le: u32 = from_le(tail) as u32;
    let stored_be: u32 = from_be(tail) as u32;
    let computed: u32 = checksum::fletcher32(payload);
    if computed != stored_le && computed != stored_be {
        return Err(
            Error::ChecksumMismatch { what: "chunk fletcher32", stored: stored_le, computed },
        );
    }
    let mut out = data;
    out.truncate(split);
    assert(out@ =~= data@.take(split as int));
    Ok(out)
}

// ── bit shuffle ────────────────────────────────────────────────────────────

/// Bit `k` of a byte, counted from the least significant.
pub open spec fn bit(b: u8, k: u8) -> bool {
    (b >> k) & 1 == 1
}

/// The bit at position `n` of a run of bytes: bit `n % 8` of byte `n / 8`.
pub open spec fn bit_at(s: Seq<u8>, n: int) -> bool {
    bit(s[n / 8], (n % 8) as u8)
}

/// The bit at row `r` and column `c` of a bit table that is `cols` wide.
pub open spec fn cell(s: Seq<u8>, cols: int, r: int, c: int) -> bool {
    bit_at(s, r * cols + c)
}

/// `out` is `data`, read as a table of `rows` by `cols` bits, transposed.
pub open spec fn transposed(data: Seq<u8>, out: Seq<u8>, rows: int, cols: int) -> bool {
    &&& out.len() == data.len()
    &&& forall|r: int, c: int|
        #![trigger cell(out, rows, c, r)]
        #![trigger cell(data, cols, r, c)]
        0 <= r < rows && 0 <= c < cols ==> cell(out, rows, c, r) == cell(data, cols, r, c)
}

/// Whether the bit shuffle moves anything: only whole elements can be shuffled.
pub open spec fn bitshuffles(len: nat, typesize: nat) -> bool {
    typesize > 0 && len % typesize == 0
}

proof fn lemma_set_bit(b: u8, k: u8, j: u8)
    by (bit_vector)
    requires
        k < 8,
        j < 8,
    ensures
        bit(b | (1u8 << k), j) == (j == k || bit(b, j)),
{
}

proof fn lemma_zero_bits(k: u8)
    by (bit_vector)
    requires
        k < 8,
    ensures
        !bit(0, k),
{
}

proof fn lemma_byte_bits(a: u8, b: u8)
    by (bit_vector)
    requires
        bit(a, 0) == bit(b, 0),
        bit(a, 1) == bit(b, 1),
        bit(a, 2) == bit(b, 2),
        bit(a, 3) == bit(b, 3),
        bit(a, 4) == bit(b, 4),
        bit(a, 5) == bit(b, 5),
        bit(a, 6) == bit(b, 6),
        bit(a, 7) == bit(b, 7),
    ensures
        a == b,
{
}

/// Bytes whose bits are all the same are the same.
proof fn lemma_same_bits(a: Seq<u8>, b: Seq<u8>)
    requires
        a.len() == b.len(),
        forall|n: int| 0 <= n < 8 * a.len() ==> #[trigger] bit_at(a, n) == bit_at(b, n),
    ensures
        a == b,
{
    assert forall|i: int| 0 <= i < a.len() implies a[i] == b[i] by {
        assert(bit_at(a, 8 * i) == bit_at(b, 8 * i));
        assert(bit_at(a, 8 * i + 1) == bit_at(b, 8 * i + 1));
        assert(bit_at(a, 8 * i + 2) == bit_at(b, 8 * i + 2));
        assert(bit_at(a, 8 * i + 3) == bit_at(b, 8 * i + 3));
        assert(bit_at(a, 8 * i + 4) == bit_at(b, 8 * i + 4));
        assert(bit_at(a, 8 * i + 5) == bit_at(b, 8 * i + 5));
        assert(bit_at(a, 8 * i + 6) == bit_at(b, 8 * i + 6));
        assert(bit_at(a, 8 * i + 7) == bit_at(b, 8 * i + 7));
        lemma_byte_bits(a[i], b[i]);
    }
    assert(a =~= b);
}

/// Transposing a transposed table gives the table back.
proof fn lemma_transposed_twice(a: Seq<u8>, b: Seq<u8>, c: Seq<u8>, rows: int, cols: int)
    requires
        rows > 0,
        cols > 0,
        rows * cols == 8 * a.len(),
        transposed(a, b, rows, cols),
        transposed(b, c, cols, rows),
    ensures
        c == a,
{
    assert forall|n: int| 0 <= n < 8 * c.len() implies #[trigger] bit_at(c, n) == bit_at(a, n) by {
        lemma_row_and_column(n, rows, cols);
        let i = n / cols;
        let j = n % cols;
        assert(cell(c, cols, i, j) == cell(b, rows, j, i));
        assert(cell(b, rows, j, i) == cell(a, cols, i, j));
    }
    lemma_same_bits(c, a);
}

/// Undoing the bit shuffle gives back what was shuffled, for whole elements:
/// `typesize` bytes each, seen as rows of `8 * typesize` bits. Anything else is
/// left as it stands both ways.
pub proof fn unbitshuffle_undoes_bitshuffle(
    data: Seq<u8>,
    shuffled_data: Seq<u8>,
    back: Seq<u8>,
    typesize: nat,
)
    requires
        bitshuffled(data, shuffled_data, typesize),
        unbitshuffled(shuffled_data, back, typesize),
    ensures
        back == data,
{
    if bitshuffles(data.len(), typesize) && data.len() > 0 {
        let elements = (data.len() / typesize) as int;
        lemma_element_bits(data.len(), typesize);
        lemma_transposed_twice(data, shuffled_data, back, elements, (typesize * 8) as int);
    } else {
        assert(back =~= data);
    }
}

/// Shuffling bits whose shuffle was undone gives back what they were.
pub proof fn bitshuffle_undoes_unbitshuffle(
    data: Seq<u8>,
    plain: Seq<u8>,
    back: Seq<u8>,
    typesize: nat,
)
    requires
        unbitshuffled(data, plain, typesize),
        bitshuffled(plain, back, typesize),
    ensures
        back == data,
{
    if bitshuffles(data.len(), typesize) && data.len() > 0 {
        let elements = (data.len() / typesize) as int;
        let bits = (typesize * 8) as int;
        lemma_element_bits(data.len(), typesize);
        assert(bits * elements == elements * bits) by (nonlinear_arith);
        lemma_transposed_twice(data, plain, back, bits, elements);
    } else {
        assert(back =~= data);
    }
}

/// `elements * typesize * 8` bits make up whole elements exactly.
proof fn lemma_element_bits(len: nat, typesize: nat)
    requires
        bitshuffles(len, typesize),
    ensures
        (len / typesize) * (typesize * 8) == 8 * len,
        len > 0 ==> len / typesize > 0,
{
    lemma_fundamental_div_mod(len as int, typesize as int);
    let q = len as int / typesize as int;
    assert(q * (typesize * 8) == 8 * len && (len > 0 ==> q > 0)) by (nonlinear_arith)
        requires
            typesize > 0,
            len == typesize * q,
            q >= 0,
    ;
}

/// `out` is `data` with its bits shuffled: the elements, as rows of bits,
/// transposed. Bytes that are no whole elements are left alone.
pub open spec fn bitshuffled(data: Seq<u8>, out: Seq<u8>, typesize: nat) -> bool {
    if bitshuffles(data.len(), typesize) {
        transposed(data, out, (data.len() / typesize) as int, (typesize * 8) as int)
    } else {
        out == data
    }
}

/// `out` is `data` with the bit shuffle undone: the transpose back.
pub open spec fn unbitshuffled(data: Seq<u8>, out: Seq<u8>, typesize: nat) -> bool {
    if bitshuffles(data.len(), typesize) {
        transposed(data, out, (typesize * 8) as int, (data.len() / typesize) as int)
    } else {
        out == data
    }
}

/// Transpose a table of `rows` by `cols` bits.
fn transpose_bits(data: &[u8], rows: u128, cols: u128) -> (out: Vec<u8>)
    requires
        rows > 0,
        cols > 0,
        rows * cols == 8 * data@.len(),
    ensures
        transposed(data@, out@, rows as int, cols as int),
{
    let mut out: Vec<u8> = vec![0u8; data.len()];
    let ghost total = 8 * data@.len();
    let mut r: u128 = 0;
    proof {
        assert forall|c: int, q: int| 0 <= q < rows && 0 <= c < cols implies !#[trigger] cell(
            out@,
            rows as int,
            c,
            q,
        ) by {
            lemma_cell(c, q, cols as int, rows as int);
            assert(cols * rows == rows * cols) by (nonlinear_arith);
            lemma_zero_bits(((c * rows + q) % 8) as u8);
        }
    }
    while r < rows
        invariant
            rows > 0,
            cols > 0,
            total == rows * cols == 8 * data@.len(),
            out@.len() == data@.len(),
            r <= rows,
            forall|q: int, c: int|
                #![trigger cell(out@, rows as int, c, q)]
                0 <= q < rows && 0 <= c < cols ==> cell(out@, rows as int, c, q) == (q < r && cell(
                    data@,
                    cols as int,
                    q,
                    c,
                )),
        decreases rows - r,
    {
        let mut c: u128 = 0;
        while c < cols
            invariant
                rows > 0,
                cols > 0,
                total == rows * cols == 8 * data@.len(),
                out@.len() == data@.len(),
                r < rows,
                c <= cols,
                forall|q: int, d: int|
                    #![trigger cell(out@, rows as int, d, q)]
                    0 <= q < rows && 0 <= d < cols ==> cell(out@, rows as int, d, q) == ((q < r || (
                    q == r && d < c)) && cell(data@, cols as int, q, d)),
            decreases cols - c,
        {
            proof {
                lemma_cell(r as int, c as int, rows as int, cols as int);
                lemma_cell(c as int, r as int, cols as int, rows as int);
                assert(cols * rows == rows * cols) by (nonlinear_arith);
                assert(data.len() <= usize::MAX);
            }
            let src: u128 = r * cols + c;
            let dst: u128 = c * rows + r;
            let b: u8 = data[(src / 8) as usize];
            let k: u8 = (src % 8) as u8;
            let ghost before = out@;
            if (b >> k) & 1 == 1 {
                let i: usize = (dst / 8) as usize;
                let j: u8 = (dst % 8) as u8;
                let old_byte: u8 = out[i];
                out[i] = old_byte | (1u8 << j);
                proof {
                    assert forall|n: int| 0 <= n < total implies #[trigger] bit_at(out@, n) == (n
                        == dst || bit_at(before, n)) by {
                        lemma_set_bit(old_byte, j, (n % 8) as u8);
                    }
                }
            }
            proof {
                assert forall|q: int, d: int|
                    #![trigger cell(out@, rows as int, d, q)]
                    0 <= q < rows && 0 <= d < cols implies cell(out@, rows as int, d, q) == ((q < r
                    || (q == r && d < c + 1)) && cell(data@, cols as int, q, d)) by {
                    lemma_cell(d, q, cols as int, rows as int);
                    assert(cell(before, rows as int, d, q) == ((q < r || (q == r && d < c))
                        && cell(data@, cols as int, q, d)));
                    assert(bit_at(before, d * rows + q) == cell(before, rows as int, d, q));
                    assert(cell(data@, cols as int, r as int, c as int) == bit(b, k));
                }
            }
            c = c + 1;
        }
        r = r + 1;
    }
    out
}

/// Undo Blosc's bit shuffle.
///
/// Where the byte shuffle groups bytes of like significance, the bit shuffle
/// groups *bits*. Within each block of `typesize * 8` elements it transposes an
/// `8 * typesize` by `n` bit matrix. Undoing it is the transpose back.
pub fn unbitshuffle(data: &[u8], typesize: usize) -> (r: Vec<u8>)
    ensures
        unbitshuffled(data@, r@, typesize as nat),
{
    if typesize == 0 || data.len() % typesize != 0 || data.len() == 0 {
        return slice_to_vec(data);
    }
    proof {
        lemma_element_bits(data@.len(), typesize as nat);
        let q = data@.len() / typesize as nat;
        assert((typesize * 8) * q == q * (typesize * 8)) by (nonlinear_arith);
    }
    transpose_bits(data, typesize as u128 * 8, (data.len() / typesize) as u128)
}

/// Apply Blosc's bit shuffle. Present so tests can round-trip.
pub fn bitshuffle(data: &[u8], typesize: usize) -> (r: Vec<u8>)
    ensures
        bitshuffled(data@, r@, typesize as nat),
{
    if typesize == 0 || data.len() % typesize != 0 || data.len() == 0 {
        return slice_to_vec(data);
    }
    proof {
        lemma_element_bits(data@.len(), typesize as nat);
    }
    transpose_bits(data, (data.len() / typesize) as u128, typesize as u128 * 8)
}

// ── zlib, zstd and lz4 ─────────────────────────────────────────────────────

/// What `flate2::read::ZlibDecoder` reads to the end of `data`: the inflated
/// bytes, or the text of the error.
pub uninterp spec fn zlib_decoded(data: Seq<u8>) -> std::result::Result<Seq<u8>, Seq<char>>;

/// What `zstd::stream::read::Decoder` reads to the end of `data`: the
/// decompressed bytes, or whether it failed to start and the text of the error.
pub uninterp spec fn zstd_decoded(data: Seq<u8>) -> std::result::Result<Seq<u8>, (bool, Seq<char>)>;

/// What `lz4_flex::block::decompress` makes of `data`, given room for `room`
/// bytes: the decompressed bytes, or the text of the error.
pub uninterp spec fn lz4_decoded(data: Seq<u8>, room: nat) -> std::result::Result<
    Seq<u8>,
    Seq<char>,
>;

/// A result whose bytes and whose text are taken by their views.
pub open spec fn text_result(r: std::result::Result<Vec<u8>, String>) -> std::result::Result<
    Seq<u8>,
    Seq<char>,
> {
    match r {
        Ok(v) => Ok(v@),
        Err(m) => Err(m@),
    }
}

/// Inflate a whole zlib stream.
///
/// The call is `flate2::read::ZlibDecoder::new` on the bytes, read to the end.
/// What comes back, bytes or error text, depends on the bytes alone.
#[verifier::external_body]
fn zlib_decode(data: &[u8]) -> (r: std::result::Result<Vec<u8>, String>)
    ensures
        text_result(r) == zlib_decoded(data@),
{
    let mut out = Vec::new();
    match flate2::read::ZlibDecoder::new(data).read_to_end(&mut out) {
        Ok(_) => Ok(out),
        Err(e) => Err(e.to_string()),
    }
}

/// Decompress a whole Zstandard stream.
///
/// The call is `zstd::stream::read::Decoder::new` on the bytes, read to the
/// end. What comes back depends on the bytes alone; the flag beside an error's
/// text tells a decoder that did not start from a stream that is damaged.
#[verifier::external_body]
fn zstd_decode(data: &[u8]) -> (r: std::result::Result<Vec<u8>, (bool, String)>)
    ensures
        (match r {
            Ok(v) => Ok(v@),
            Err((start, m)) => Err((start, m@)),
        }) == zstd_decoded(data@),
{
    let mut out = Vec::new();
    match zstd::stream::read::Decoder::new(data) {
        Err(e) => Err((true, e.to_string())),
        Ok(mut decoder) => match decoder.read_to_end(&mut out) {
            Ok(_) => Ok(out),
            Err(e) => Err((false, e.to_string())),
        },
    }
}

/// The index of the first byte from `p` on that is not 255, or the end of `data`.
pub open spec fn run_end(data: Seq<u8>, p: int) -> int
    decreases data.len() - p,
{
    if p >= data.len() || data[p] != 255 {
        p
    } else {
        run_end(data, p + 1)
    }
}

/// What the length field of an LZ4 block at `p` adds up to. It goes on behind every
/// byte of 255, and the first other byte ends it.
pub open spec fn length_field(data: Seq<u8>, p: int) -> int {
    let end = run_end(data, p);
    255 * (end - p) + if end < data.len() {
        data[end] as int
    } else {
        0
    }
}

/// The length field at `p` adds up to a number of 32 bits, and the end of a match of
/// that length in an output of `room` bytes is a `usize`.
pub open spec fn field_fits(data: Seq<u8>, p: int, room: nat) -> bool {
    &&& length_field(data, p) <= u32::MAX
    &&& 19 + length_field(data, p) + room <= usize::MAX
}

/// A length whose four bits in the token are `bits`, and the position behind its
/// field at `p`, which is there only where all four bits are set.
pub open spec fn lz4_length(data: Seq<u8>, bits: u8, p: int) -> (int, int) {
    if bits == 15 {
        (15 + length_field(data, p), run_end(data, p) + 1)
    } else {
        (bits as int, p)
    }
}

/// Where the match offset of the token at `p` stands: behind the literals.
pub open spec fn lz4_offset(data: Seq<u8>, p: int) -> int {
    let (literals, q) = lz4_length(data, data[p] / 16, p + 1);
    q + literals
}

proof fn lemma_run_end(data: Seq<u8>, p: int)
    ensures
        p <= run_end(data, p),
        p <= data.len() ==> run_end(data, p) <= data.len(),
    decreases data.len() - p,
{
    if p < data.len() && data[p] == 255 {
        lemma_run_end(data, p + 1);
    }
}

/// Every length field of an LZ4 block fits, from the token at `p` on. Behind a token
/// stand the field of its literal length, the literals, two bytes of match offset
/// and the field of its match length.
pub open spec fn lz4_countable(data: Seq<u8>, p: int, room: nat) -> bool
    decreases data.len() + 1 - p,
    via lemma_lz4_countable_ends
{
    if p >= data.len() {
        true
    } else {
        let offset = lz4_offset(data, p);
        &&& data[p] / 16 == 15 ==> field_fits(data, p + 1, room)
        &&& offset + 2 < data.len() ==> {
            &&& data[p] % 16 == 15 ==> field_fits(data, offset + 2, room)
            &&& lz4_countable(data, lz4_length(data, data[p] % 16, offset + 2).1, room)
        }
    }
}

#[via_fn]
proof fn lemma_lz4_countable_ends(data: Seq<u8>, p: int, room: nat) {
    lemma_run_end(data, p + 1);
    lemma_run_end(data, lz4_offset(data, p) + 2);
}

/// Decompress an LZ4 block of at most `room` bytes.
///
/// The call is `lz4_flex::block::decompress`. What comes back depends on the
/// block and the room alone. The decoder adds up a length field in 32 bits and a
/// position in the output in a `usize`, so blocks with longer fields are left out.
/// It makes the output in one piece, which holds `isize::MAX` bytes at most.
#[verifier::external_body]
fn lz4_decode(data: &[u8], room: usize) -> (r: std::result::Result<Vec<u8>, String>)
    requires
        lz4_countable(data@, 0, room as nat),
        room <= isize::MAX,
    ensures
        text_result(r) == lz4_decoded(data@, room as nat),
{
    match lz4_flex::block::decompress(data, room) {
        Ok(out) => Ok(out),
        Err(e) => Err(e.to_string()),
    }
}

/// Bytes, or an error text behind `prefix`.
pub open spec fn outcome(
    prefix: Seq<char>,
    decoded: std::result::Result<Seq<u8>, Seq<char>>,
) -> std::result::Result<Seq<u8>, ErrorView> {
    match decoded {
        Ok(bytes) => Ok(bytes),
        Err(m) => Err(ErrorView::Malformed(prefix + m)),
    }
}

/// What a chunk inflates to.
pub open spec fn inflated(data: Seq<u8>) -> std::result::Result<Seq<u8>, ErrorView> {
    outcome("failed to inflate a chunk: "@, zlib_decoded(data))
}

/// What the outcome of a zstd stream means for the chunk.
pub open spec fn zstd_outcome(
    decoded: std::result::Result<Seq<u8>, (bool, Seq<char>)>,
) -> std::result::Result<Seq<u8>, ErrorView> {
    match decoded {
        Ok(bytes) => Ok(bytes),
        Err((true, m)) => Err(ErrorView::Malformed("failed to start a zstd decoder: "@ + m)),
        Err((false, m)) => Err(ErrorView::Malformed("failed to decompress a zstd chunk: "@ + m)),
    }
}

/// What an LZ4 block decompresses to. One that spells a length past what any output
/// can hold is refused.
pub open spec fn unlz4ed(data: Seq<u8>, room: nat) -> std::result::Result<Seq<u8>, ErrorView> {
    if room > isize::MAX || !lz4_countable(data, 0, room) {
        Err(ErrorView::Malformed("lz4 block is too large to decompress"@))
    } else {
        outcome("failed to decompress an lz4 block: "@, lz4_decoded(data, room))
    }
}

/// Turn what a decoder gave into a chunk, or its error text into an error.
pub fn decoder_outcome(prefix: &str, decoded: std::result::Result<Vec<u8>, String>) -> (r: Result<
    Vec<u8>,
>)
    ensures
        seen(r) == outcome(prefix@, text_result(decoded)),
{
    match decoded {
        Ok(out) => Ok(out),
        Err(m) => Err(Error::Malformed(joined(prefix, m.as_str()))),
    }
}

/// Turn what the zstd decoder gave into a chunk, or its error text into an error.
pub fn zstd_decoder_outcome(decoded: std::result::Result<Vec<u8>, (bool, String)>) -> (r: Result<
    Vec<u8>,
>)
    ensures
        seen(r) == zstd_outcome(
            match decoded {
                Ok(v) => Ok(v@),
                Err((start, m)) => Err((start, m@)),
            },
        ),
{
    match decoded {
        Ok(out) => Ok(out),
        Err((start, m)) => if start {
            Err(Error::Malformed(joined("failed to start a zstd decoder: ", m.as_str())))
        } else {
            Err(Error::Malformed(joined("failed to decompress a zstd chunk: ", m.as_str())))
        },
    }
}

/// Inflate zlib-wrapped deflate data.
///
/// `expected_len` is how long the caller expects the result to be. It bounds
/// nothing.
pub fn inflate(data: &[u8], expected_len: usize) -> (r: Result<Vec<u8>>)
    ensures
        seen(r) == inflated(data@),
{
    let _ = expected_len;
    decoder_outcome("failed to inflate a chunk: ", zlib_decode(data))
}

/// Decompress a Zstandard-compressed chunk.
///
/// `expected_len` is how long the caller expects the result to be. It bounds
/// nothing.
pub fn unzstd(data: &[u8], expected_len: usize) -> (r: Result<Vec<u8>>)
    ensures
        seen(r) == zstd_outcome(zstd_decoded(data@)),
{
    let _ = expected_len;
    zstd_decoder_outcome(zstd_decode(data))
}

/// What the length field at `p` adds up to and where it ends, if it fits.
fn read_length_field(data: &[u8], p: usize, room: usize) -> (r: Option<(usize, usize)>)
    requires
        p <= data@.len(),
        room <= isize::MAX,
    ensures
        r is Some == field_fits(data@, p as int, room as nat),
        r matches Some((total, end)) ==> total == length_field(data@, p as int) && end == run_end(
            data@,
            p as int,
        ) <= data@.len(),
{
    let spare: usize = usize::MAX - 19 - room;
    let limit: usize = if spare < u32::MAX as usize {
        spare
    } else {
        u32::MAX as usize
    };
    let mut total: usize = 0;
    let mut end: usize = p;
    while end < data.len() && data[end] == 255
        invariant
            p <= end <= data@.len(),
            total == 255 * (end - p),
            total <= limit,
            limit <= u32::MAX,
            19 + limit + room <= usize::MAX,
            limit == u32::MAX || 19 + limit + room == usize::MAX,
            run_end(data@, p as int) == run_end(data@, end as int),
        decreases data@.len() - end,
    {
        if limit - total < 255 {
            proof {
                lemma_run_end(data@, end + 1);
            }
            return None;
        }
        total = total + 255;
        end = end + 1;
    }
    assert(run_end(data@, p as int) == end);
    if end < data.len() {
        let last: usize = data[end] as usize;
        if last > limit - total {
            return None;
        }
        total = total + last;
    }
    Some((total, end))
}

/// Whether every length field of an LZ4 block fits.
fn lengths_fit(data: &[u8], room: usize) -> (r: bool)
    requires
        room <= isize::MAX,
    ensures
        r == lz4_countable(data@, 0, room as nat),
{
    let mut p: usize = 0;
    while p < data.len()
        invariant
            room <= isize::MAX,
            lz4_countable(data@, 0, room as nat) == lz4_countable(data@, p as int, room as nat),
        decreases data@.len() - p,
    {
        let token: u8 = data[p];
        let mut literals: usize = (token / 16) as usize;
        let mut q: usize = p + 1;
        if token / 16 == 15 {
            match read_length_field(data, q, room) {
                None => {
                    return false;
                },
                Some((total, end)) => {
                    if end == data.len() {
                        return true;
                    }
                    literals = 15 + total;
                    q = end + 1;
                },
            }
        }
        if data.len() - q <= 2 || literals >= data.len() - q - 2 {
            return true;
        }
        let mut next: usize = q + literals + 2;
        if token % 16 == 15 {
            match read_length_field(data, next, room) {
                None => {
                    return false;
                },
                Some((_, end)) => {
                    if end == data.len() {
                        assert(lz4_countable(data@, end + 1, room as nat));
                        return true;
                    }
                    next = end + 1;
                },
            }
        }
        p = next;
    }
    true
}

/// Decompress an LZ4 block of at most `room` bytes.
pub fn unlz4(data: &[u8], room: usize) -> (r: Result<Vec<u8>>)
    ensures
        seen(r) == unlz4ed(data@, room as nat),
{
    if room > isize::MAX as usize || !lengths_fit(data, room) {
        return Err(Error::malformed("lz4 block is too large to decompress"));
    }
    decoder_outcome("failed to decompress an lz4 block: ", lz4_decode(data, room))
}

// ── blosclz ────────────────────────────────────────────────────────────────

/// The length of a match whose length field is full: extra bytes follow, and
/// each of 255 is followed by another.
pub open spec fn long_length(data: Seq<u8>, p: int, length: int) -> std::result::Result<
    (int, int),
    ErrorView,
>
    decreases data.len() - p,
{
    if p >= data.len() {
        Err(ErrorView::Malformed("blosclz match length runs past the block"@))
    } else if data[p] != 255 {
        Ok((length + data[p], p + 1))
    } else {
        long_length(data, p + 1, length + 255)
    }
}

/// The distance field of a match and where it ends. A full field is extended
/// by two more bytes.
pub open spec fn match_distance(data: Seq<u8>, p: int, token: int) -> std::result::Result<
    (int, int),
    ErrorView,
> {
    if p >= data.len() {
        Err(ErrorView::Malformed("blosclz match offset runs past the block"@))
    } else {
        let distance = (token % 32) * 256 + data[p];
        if distance != 0x1fff {
            Ok((distance, p + 1))
        } else if p + 2 >= data.len() {
            Err(ErrorView::Malformed("blosclz extended match offset runs past the block"@))
        } else {
            Ok((distance + 256 * data[p + 1] + data[p + 2], p + 3))
        }
    }
}

/// `out` followed by `length` bytes that repeat its last `period` bytes.
pub open spec fn repeated(out: Seq<u8>, period: int, length: int) -> Seq<u8> {
    out + Seq::new(length as nat, |i: int| out[out.len() - period + i % period])
}

/// The length of the match that `token` announces and where its distance starts.
pub open spec fn match_length(data: Seq<u8>, p: int, token: int) -> std::result::Result<
    (int, int),
    ErrorView,
> {
    match if token / 32 == 7 {
        long_length(data, p, 7)
    } else {
        Ok((token / 32, p))
    } {
        Err(e) => Err(e),
        Ok((length, q)) => if length + 2 > usize::MAX {
            Err(ErrorView::Malformed("blosclz match is longer than memory can hold"@))
        } else {
            Ok((length + 2, q))
        },
    }
}

/// What the tokens of `data` from `p` on make of the output so far. The first
/// token of a stream is always a literal run.
pub open spec fn unblosclzed(data: Seq<u8>, p: int, first: bool, out: Seq<u8>) -> std::result::Result<
    Seq<u8>,
    ErrorView,
>
    decreases data.len() - p,
{
    if p < 0 || p >= data.len() {
        Ok(out)
    } else {
        let token = data[p] as int;
        if first || token / 32 == 0 {
            let count = token % 32 + 1;
            if p + 1 + count > data.len() {
                Err(ErrorView::Malformed("blosclz literal run runs past the block"@))
            } else {
                unblosclzed(
                    data,
                    p + 1 + count,
                    false,
                    out + data.subrange(p + 1, p + 1 + count),
                )
            }
        } else {
            match match_length(data, p + 1, token) { Err(e) => Err(e), Ok((length, q)) =>
            match match_distance(data, q, token) { Err(e) => Err(e), Ok((distance, q)) =>
                if distance + 1 > out.len() {
                    Err(ErrorView::Malformed("blosclz match points before the start of the block"@))
                } else if q <= p {
                    Err(ErrorView::Incomplete)
                } else {
                    unblosclzed(data, q, false, repeated(out, distance + 1, length))
                }
            }}
        }
    }
}

/// Read a match length that continues past the token.
fn read_long_length(data: &[u8], start: usize) -> (r: Result<(usize, usize)>)
    ensures
        (match r {
            Ok((length, q)) => Ok((length as int, q as int)),
            Err(e) => Err(e@),
        }) == (match long_length(data@, start as int, 7) {
            Ok((length, q)) => if length + 2 > usize::MAX {
                Err(ErrorView::Malformed("blosclz match is longer than memory can hold"@))
            } else {
                Ok((length + 2, q))
            },
            Err(e) => Err(e),
        }),
        r matches Ok((_, q)) ==> start < q <= data@.len(),
{
    let mut length: u128 = 7;
    let mut pos: usize = start;
    while pos < data.len()
        invariant
            start <= pos,
            length == 7 + 255 * (pos - start),
            long_length(data@, start as int, 7) == long_length(data@, pos as int, length as int),
        decreases data@.len() - pos,
    {
        let extra: u8 = data[pos];
        if extra != 255 {
            let total: u128 = length + extra as u128 + 2;
            if total > usize::MAX as u128 {
                return Err(Error::malformed("blosclz match is longer than memory can hold"));
            }
            return Ok((total as usize, pos + 1));
        }
        length = length + 255;
        pos = pos + 1;
    }
    Err(Error::malformed("blosclz match length runs past the block"))
}

/// Read the distance of a match.
fn read_distance(data: &[u8], pos: usize, token: u8) -> (r: Result<(usize, usize)>)
    ensures
        (match r {
            Ok((distance, q)) => Ok((distance as int, q as int)),
            Err(e) => Err(e@),
        }) == match_distance(data@, pos as int, token as int),
        r matches Ok((distance, q)) ==> pos < q <= data@.len() && distance < 0x2_0000,
{
    if pos >= data.len() {
        return Err(Error::malformed("blosclz match offset runs past the block"));
    }
    let distance: usize = (token % 32) as usize * 256 + data[pos] as usize;
    if distance != 0x1fff {
        return Ok((distance, pos + 1));
    }
    // A maximal distance means two more bytes extend it.
    if data.len() - pos <= 2 {
        return Err(Error::malformed("blosclz extended match offset runs past the block"));
    }
    Ok((distance + 256 * data[pos + 1] as usize + data[pos + 2] as usize, pos + 3))
}

/// Copy `length` bytes from `period` bytes back.
fn copy_match(out: &mut Vec<u8>, period: usize, length: usize)
    requires
        0 < period <= old(out)@.len(),
    ensures
        final(out)@ == repeated(old(out)@, period as int, length as int),
{
    let start: usize = out.len() - period;
    let ghost before = out@;
    let ghost whole = repeated(before, period as int, length as int);
    let mut i: usize = 0;
    // Copy byte by byte: a match may overlap what it is producing.
    assert(out@ =~= whole.take(before.len() as int));
    while i < length
        invariant
            before == old(out)@,
            whole == repeated(before, period as int, length as int),
            0 < period <= before.len() == start + period,
            i <= length,
            out@.len() == before.len() + i,
            out@ == whole.take(out@.len() as int),
        decreases length - i,
    {
        proof {
            // The byte at `start + i` is the one `i % period` behind `start`.
            if i >= period {
                vstd::arithmetic::div_mod::lemma_mod_multiples_vanish(
                    1,
                    i - period,
                    period as int,
                );
                assert((period * 1 + (i - period)) == i as int);
                assert(i as int % period as int == (i - period) % period as int);
            } else {
                vstd::arithmetic::div_mod::lemma_small_mod(i as nat, period as nat);
            }
            assert(out.len() <= usize::MAX);
        }
        let byte: u8 = out[start + i];
        out.push(byte);
        i = i + 1;
        assert(out@ =~= whole.take(out@.len() as int));
    }
    assert(whole.take(whole.len() as int) =~= whole);
}

/// Decompress a blosclz block.
///
/// blosclz is Blosc's own LZ77 variant, derived from FastLZ, and it is the
/// default codec, so skipping it would leave most real Blosc chunks unreadable.
/// The format is a stream of two kinds of token:
///
/// * A literal run: the token's top three bits are zero, and the low five bits
///   hold `count - 1` literal bytes that follow.
/// * A back-reference: the top three bits hold `length - 2`, and the remaining
///   bits, plus one or two following bytes, give the distance back into the
///   output. A length field of 7 means the real length follows in extra bytes.
///
/// Matches may overlap the current output position, so bytes are copied one at
/// a time rather than with a block move.
///
/// `expected_len` is how long the caller expects the result to be. It bounds
/// nothing.
pub fn unblosclz(data: &[u8], expected_len: usize) -> (r: Result<Vec<u8>>)
    ensures
        seen(r) == unblosclzed(data@, 0, true, Seq::empty()),
{
    let _ = expected_len;
    let mut out: Vec<u8> = Vec::new();
    let mut pos: usize = 0;

    // The first token of a stream is always a literal run.
    let mut first: bool = true;

    while pos < data.len()
        invariant
            pos <= data@.len(),
            unblosclzed(data@, 0, true, Seq::empty()) == unblosclzed(
                data@,
                pos as int,
                first,
                out@,
            ),
        decreases data@.len() - pos,
    {
        let token: u8 = data[pos];
        pos = pos + 1;
        if first || token / 32 == 0 {
            // Literal run of (token & 0x1f) + 1 bytes.
            let count: usize = (token % 32) as usize + 1;
            if count > data.len() - pos {
                return Err(Error::malformed("blosclz literal run runs past the block"));
            }
            extend(&mut out, slice_subrange(data, pos, pos + count));
            pos = pos + count;
            first = false;
        } else {
            // Back-reference. A length of 7 means the remainder follows, 255
            // at a time.
            let (length, after): (usize, usize) = if token / 32 == 7 {
                read_long_length(data, pos)?
            } else {
                ((token / 32) as usize + 2, pos)
            };
            let (distance, after): (usize, usize) = read_distance(data, after, token)?;
            if distance + 1 > out.len() {
                return Err(Error::malformed("blosclz match points before the start of the block"));
            }
            copy_match(&mut out, distance + 1, length);
            pos = after;
        }
    }
    Ok(out)
}

/// Append `more` to `out`.
fn extend(out: &mut Vec<u8>, more: &[u8])
    ensures
        final(out)@ == old(out)@ + more@,
{
    let ghost before = out@;
    out.extend_from_slice(more);
    assert(out@ =~= before + more@);
}

// ── blosc ──────────────────────────────────────────────────────────────────

/// The Blosc project's own LZ77 variant, and the default choice.
pub const BLOSC_BLOSCLZ: u8 = 0;

/// LZ4.
pub const BLOSC_LZ4: u8 = 1;

/// LZ4 high compression. Same decoder as LZ4.
pub const BLOSC_LZ4HC: u8 = 2;

/// Snappy.
pub const BLOSC_SNAPPY: u8 = 3;

/// zlib, which is deflate with a zlib wrapper.
pub const BLOSC_ZLIB: u8 = 4;

/// Zstandard.
pub const BLOSC_ZSTD: u8 = 5;

/// Blosc header flag: the byte shuffle was applied inside the container.
pub const BLOSC_DOSHUFFLE: u8 = 0x01;

/// Blosc header flag: the bit shuffle was applied inside the container.
pub const BLOSC_DOBITSHUFFLE: u8 = 0x04;

/// What the header of a Blosc container says.
#[derive(Debug, Clone, Copy, PartialEq, Eq, Structural)]
pub struct BloscHeader {
    /// Shuffle flags, and the sub-codec in the top three bits.
    pub flags: u8,
    /// Width of one element in bytes.
    pub typesize: u8,
    /// Uncompressed size.
    pub nbytes: u32,
    /// Uncompressed size of one block.
    pub blocksize: u32,
}

impl View for BloscHeader {
    type V = BloscHeader;

    open spec fn view(&self) -> BloscHeader {
        *self
    }
}

impl BloscHeader {
    /// How many blocks the container holds.
    pub open spec fn block_count(self) -> int {
        (self.nbytes + self.blocksize - 1) / self.blocksize as int
    }

    /// The sub-codec.
    pub open spec fn codec(self) -> u8 {
        self.flags / 32
    }
}

/// The header of a Blosc container, checked against the bytes that follow it.
pub open spec fn blosc_header(data: Seq<u8>) -> std::result::Result<BloscHeader, ErrorView> {
    if data.len() < 16 {
        Err(ErrorView::Malformed("blosc chunk is shorter than its 16-byte header"@))
    } else if data[0] != 2 {
        Err(ErrorView::Unsupported("blosc container format version "@ + decimal(data[0] as nat)))
    } else {
        let header = BloscHeader {
            flags: data[2],
            typesize: data[3],
            nbytes: u32_in(data, 4),
            blocksize: u32_in(data, 8),
        };
        let cbytes = u32_in(data, 12);
        if cbytes > data.len() {
            Err(
                ErrorView::Malformed(
                    "blosc header claims "@ + decimal(cbytes as nat)
                        + " compressed bytes but the chunk holds "@ + decimal(data.len()),
                ),
            )
        } else if header.blocksize == 0 {
            Err(ErrorView::Malformed("blosc header declares a zero block size"@))
        } else if 16 + 4 * header.block_count() > data.len() {
            Err(ErrorView::Malformed("blosc chunk is truncated before its block offset table"@))
        } else {
            Ok(header)
        }
    }
}

/// The compressed bytes of block `block`: the offset table names where its
/// length stands, and the bytes follow the length.
pub open spec fn blosc_block(data: Seq<u8>, block: int) -> std::result::Result<
    Seq<u8>,
    ErrorView,
> {
    let start = u32_in(data, 16 + 4 * block) as int;
    if start + 4 > data.len() {
        Err(ErrorView::Malformed("blosc block offset points past the chunk"@))
    } else {
        let clen = u32_in(data, start) as int;
        if start + 4 + clen > data.len() {
            Err(ErrorView::Malformed("blosc block runs past the chunk"@))
        } else {
            Ok(data.subrange(start + 4, start + 4 + clen))
        }
    }
}

/// What one block decompresses to under a sub-codec.
pub open spec fn blosc_decoded(codec: u8, body: Seq<u8>, want: nat) -> std::result::Result<
    Seq<u8>,
    ErrorView,
> {
    if codec == BLOSC_LZ4 || codec == BLOSC_LZ4HC {
        unlz4ed(body, want)
    } else if codec == BLOSC_ZLIB {
        inflated(body)
    } else if codec == BLOSC_ZSTD {
        zstd_outcome(zstd_decoded(body))
    } else if codec == BLOSC_BLOSCLZ {
        unblosclzed(body, 0, true, Seq::empty())
    } else if codec == BLOSC_SNAPPY {
        Err(ErrorView::Unsupported("blosc chunk using the snappy sub-codec"@))
    } else {
        Err(ErrorView::Unsupported("blosc sub-codec "@ + decimal(codec as nat)))
    }
}

/// How many bytes the next block should give, with `done` bytes made so far.
pub open spec fn blosc_want(header: BloscHeader, done: nat) -> std::result::Result<
    nat,
    ErrorView,
> {
    if done > header.nbytes {
        Err(ErrorView::Malformed("blosc blocks hold more bytes than the header declares"@))
    } else if header.nbytes - done < header.blocksize {
        Ok((header.nbytes - done) as nat)
    } else {
        Ok(header.blocksize as nat)
    }
}

/// All blocks from `block` on, decompressed behind `out`.
pub open spec fn blosc_blocks(
    data: Seq<u8>,
    header: BloscHeader,
    block: int,
    out: Seq<u8>,
) -> std::result::Result<Seq<u8>, ErrorView>
    decreases header.block_count() - block,
{
    if block >= header.block_count() {
        Ok(out)
    } else {
        match blosc_block(data, block) { Err(e) => Err(e), Ok(body) =>
        match blosc_want(header, out.len()) { Err(e) => Err(e), Ok(want) =>
        match blosc_decoded(header.codec(), body, want) { Err(e) => Err(e), Ok(more) =>
            blosc_blocks(data, header, block + 1, out + more)
        }}}
    }
}

/// The bytes that undoing the bit shuffle makes of `data`.
pub open spec fn unbitshuffled_bytes(data: Seq<u8>, typesize: nat) -> Seq<u8> {
    choose|out: Seq<u8>| unbitshuffled(data, out, typesize)
}

/// Only one run of bytes has all the bits in place.
pub proof fn lemma_unbitshuffled_unique(data: Seq<u8>, out: Seq<u8>, typesize: nat)
    requires
        unbitshuffled(data, out, typesize),
    ensures
        out == unbitshuffled_bytes(data, typesize),
{
    let other = unbitshuffled_bytes(data, typesize);
    if bitshuffles(data.len(), typesize) {
        let rows = (typesize * 8) as int;
        let cols = (data.len() / typesize) as int;
        lemma_element_bits(data.len(), typesize);
        assert(cols * rows == 8 * out.len());
        assert forall|n: int| 0 <= n < 8 * out.len() implies #[trigger] bit_at(out, n) == bit_at(
            other,
            n,
        ) by {
            lemma_row_and_column(n, cols, rows);
            let c = n / rows;
            let r = n % rows;
            assert(cell(out, rows, c, r) == cell(data, cols, r, c));
            assert(cell(other, rows, c, r) == cell(data, cols, r, c));
        }
        lemma_same_bits(out, other);
    }
}

/// The decompressed blocks cut to the declared size, with the shuffle that
/// Blosc applies inside the container undone.
pub open spec fn blosc_finished(header: BloscHeader, out: Seq<u8>) -> Seq<u8> {
    let cut = if out.len() > header.nbytes {
        out.take(header.nbytes as int)
    } else {
        out
    };
    if header.flags & BLOSC_DOBITSHUFFLE != 0 {
        unbitshuffled_bytes(cut, header.typesize as nat)
    } else if header.flags & BLOSC_DOSHUFFLE != 0 {
        unshuffled(cut, header.typesize as nat)
    } else {
        cut
    }
}

/// What a Blosc chunk decompresses to.
pub open spec fn unblosced(data: Seq<u8>) -> std::result::Result<Seq<u8>, ErrorView> {
    match blosc_header(data) { Err(e) => Err(e), Ok(header) =>
    match blosc_blocks(data, header, 0, Seq::empty()) { Err(e) => Err(e), Ok(out) =>
        Ok(blosc_finished(header, out)) }}
}

fn read_u32(data: &[u8], at: usize) -> (r: u32)
    requires
        at + 4 <= data@.len(),
    ensures
        r == u32_in(data@, at as int),
{
    proof {
        lemma_pow256_values();
        assert(data.len() <= usize::MAX);
    }
    from_le(slice_subrange(data, at, at + 4)) as u32
}

/// Parse the header of a Blosc container.
pub fn parse_blosc_header(data: &[u8]) -> (r: Result<BloscHeader>)
    ensures
        seen(r) == blosc_header(data@),
{
    if data.len() < 16 {
        return Err(Error::malformed("blosc chunk is shorter than its 16-byte header"));
    }
    let version: u8 = data[0];
    if version != 2 {
        return Err(
            Error::Unsupported(numbered("blosc container format version ", version as u64)),
        );
    }
    let header = BloscHeader {
        flags: data[2],
        typesize: data[3],
        nbytes: read_u32(data, 4),
        blocksize: read_u32(data, 8),
    };
    let cbytes: u32 = read_u32(data, 12);
    if cbytes as u64 > data.len() as u64 {
        let m = numbered("blosc header claims ", cbytes as u64);
        let m = add_text(m, " compressed bytes but the chunk holds ");
        return Err(Error::Malformed(add_number(m, data.len() as u64)));
    }
    if header.blocksize == 0 {
        return Err(Error::malformed("blosc header declares a zero block size"));
    }
    if 16 + 4 * blosc_block_count(header) as u128 > data.len() as u128 {
        return Err(Error::malformed("blosc chunk is truncated before its block offset table"));
    }
    Ok(header)
}

fn blosc_block_count(header: BloscHeader) -> (r: u64)
    requires
        header.blocksize > 0,
    ensures
        r == header.block_count(),
{
    (header.nbytes as u64 + header.blocksize as u64 - 1) / header.blocksize as u64
}

/// Find the compressed bytes of a block.
fn find_blosc_block(data: &[u8], block: usize) -> (r: Result<&[u8]>)
    requires
        16 + 4 * block + 4 <= data@.len(),
    ensures
        seen(r) == blosc_block(data@, block as int),
{
    assert(data.len() <= usize::MAX);
    let start: usize = read_u32(data, 16 + block * 4) as usize;
    if start > data.len() || data.len() - start < 4 {
        return Err(Error::malformed("blosc block offset points past the chunk"));
    }
    // Each block is prefixed by its own compressed length.
    let clen: usize = read_u32(data, start) as usize;
    let body_start: usize = start + 4;
    if clen > data.len() - body_start {
        return Err(Error::malformed("blosc block runs past the chunk"));
    }
    Ok(slice_subrange(data, body_start, body_start + clen))
}

/// Decompress one block.
fn decode_blosc_block(codec: u8, body: &[u8], want: usize) -> (r: Result<Vec<u8>>)
    ensures
        seen(r) == blosc_decoded(codec, body@, want as nat),
{
    match codec {
        BLOSC_LZ4 | BLOSC_LZ4HC => unlz4(body, want),
        BLOSC_ZLIB => inflate(body, want),
        BLOSC_ZSTD => unzstd(body, want),
        BLOSC_BLOSCLZ => unblosclz(body, want),
        BLOSC_SNAPPY => Err(Error::unsupported("blosc chunk using the snappy sub-codec")),
        other => Err(Error::Unsupported(numbered("blosc sub-codec ", other as u64))),
    }
}

/// Cut the decompressed blocks to the declared size and undo the shuffle that
/// was applied inside the container.
pub fn finish_blosc(header: BloscHeader, blocks: Vec<u8>) -> (r: Vec<u8>)
    ensures
        r@ == blosc_finished(header, blocks@),
{
    let mut out = blocks;
    let typesize: usize = header.typesize as usize;
    if out.len() > header.nbytes as usize {
        out.truncate(header.nbytes as usize);
        assert(out@ =~= blocks@.take(header.nbytes as int));
    }
    // Blosc's own shuffle is applied inside the container and is not the same
    // thing as the HDF5 shuffle filter.
    if header.flags & BLOSC_DOBITSHUFFLE != 0 {
        let back = unbitshuffle(out.as_slice(), typesize);
        proof {
            lemma_unbitshuffled_unique(out@, back@, typesize as nat);
        }
        back
    } else if header.flags & BLOSC_DOSHUFFLE != 0 {
        unshuffle(out.as_slice(), typesize)
    } else {
        out
    }
}

/// Decompress a Blosc-compressed chunk.
///
/// Blosc is a container, not a codec. Its 16-byte header names a sub-codec and
/// splits the payload into independently compressed blocks. Blosc also applies
/// its own shuffle *inside* the container, separately from the HDF5 shuffle
/// filter, so that has to be undone here.
pub fn unblosc(data: &[u8]) -> (r: Result<Vec<u8>>)
    ensures
        seen(r) == unblosced(data@),
{
    let header = parse_blosc_header(data)?;
    let block_count: u64 = blosc_block_count(header);
    let codec: u8 = header.flags / 32;
    let mut out: Vec<u8> = Vec::new();
    let mut block: usize = 0;
    while (block as u64) < block_count
        invariant
            block_count == header.block_count(),
            codec == header.codec(),
            block <= block_count,
            16 + 4 * block_count <= data@.len(),
            blosc_header(data@) == std::result::Result::<BloscHeader, ErrorView>::Ok(header),
            blosc_blocks(data@, header, 0, Seq::empty()) == blosc_blocks(
                data@,
                header,
                block as int,
                out@,
            ),
        decreases block_count - block,
    {
        assert(data.len() <= usize::MAX);
        let body = find_blosc_block(data, block)?;
        if out.len() > header.nbytes as usize {
            return Err(Error::malformed("blosc blocks hold more bytes than the header declares"));
        }
        let left: usize = header.nbytes as usize - out.len();
        let want: usize = if left < header.blocksize as usize {
            left
        } else {
            header.blocksize as usize
        };
        let decoded = decode_blosc_block(codec, body, want)?;
        extend(&mut out, decoded.as_slice());
        block = block + 1;
    }
    Ok(finish_blosc(header, out))
}

// ── the pipeline ───────────────────────────────────────────────────────────

/// Whether the filter at `index` was skipped when the chunk was written.
pub open spec fn skipped(filter_mask: u32, index: int) -> bool {
    index < 32 && filter_mask & (1u32 << (index as u32)) != 0
}

/// Whether a filter can be undone.
pub open spec fn supported(filter_id: u16) -> bool {
    filter_id == id::DEFLATE || filter_id == id::SHUFFLE || filter_id == id::FLETCHER32
        || filter_id == id::ZSTD || filter_id == id::BLOSC
}

/// The error for a filter that cannot be undone.
pub open spec fn unknown_filter(filter: FilterView) -> ErrorView {
    ErrorView::Unsupported(
        "chunk filter "@ + decimal(filter.id as nat) + if filter.name.len() == 0 {
            Seq::empty()
        } else {
            " ("@ + filter.name + ")"@
        },
    )
}

/// The element size that a shuffle filter was given, zero where it was given none.
pub open spec fn shuffle_size(filter: FilterView) -> nat {
    if filter.client_data.len() == 0 {
        0
    } else {
        filter.client_data[0] as nat
    }
}

/// A single filter undone.
pub open spec fn undone(filter: FilterView, data: Seq<u8>) -> std::result::Result<
    Seq<u8>,
    ErrorView,
> {
    if filter.id == id::DEFLATE {
        inflated(data)
    } else if filter.id == id::SHUFFLE {
        Ok(unshuffled(data, shuffle_size(filter)))
    } else if filter.id == id::FLETCHER32 {
        fletcher32_stripped(data)
    } else if filter.id == id::ZSTD {
        zstd_outcome(zstd_decoded(data))
    } else if filter.id == id::BLOSC {
        unblosced(data)
    } else {
        Err(unknown_filter(filter))
    }
}

/// A pipeline undone: the last filter first, leaving out those that the mask
/// marks as skipped.
pub open spec fn decoded(filters: Seq<FilterView>, filter_mask: u32, data: Seq<u8>) -> std::result::Result<
    Seq<u8>,
    ErrorView,
>
    decreases filters.len(),
{
    if filters.len() == 0 {
        Ok(data)
    } else if skipped(filter_mask, filters.len() - 1) {
        decoded(filters.drop_last(), filter_mask, data)
    } else {
        match undone(filters.last(), data) {
            Err(e) => Err(e),
            Ok(bytes) => decoded(filters.drop_last(), filter_mask, bytes),
        }
    }
}

/// Undo a whole pipeline for one chunk.
///
/// `filter_mask` comes from the chunk's index record. A set bit means the
/// filter at that position was skipped when the chunk was written, so it must
/// be skipped when reading too. HDF5 uses this for chunks that compression made
/// bigger.
///
/// `expected_len` is the chunk's size once decoded, which the caller knows from
/// the chunk shape and element size. Some filters take it as a hint.
pub fn decode_chunk(
    pipeline: &FilterPipeline,
    filter_mask: u32,
    data: Vec<u8>,
    expected_len: usize,
) -> (r: Result<Vec<u8>>)
    ensures
        seen(r) == decoded(pipeline@, filter_mask, data@),
{
    let mut buf = data;
    let mut index: usize = pipeline.filters.len();
    assert(pipeline@.take(index as int) =~= pipeline@);
    // Filters are listed in write order, so undo them from the back.
    while index > 0
        invariant
            index <= pipeline@.len() == pipeline.filters@.len(),
            decoded(pipeline@, filter_mask, data@) == decoded(
                pipeline@.take(index as int),
                filter_mask,
                buf@,
            ),
        decreases index,
    {
        assert(pipeline@.take(index as int).drop_last() =~= pipeline@.take(index - 1));
        assert(pipeline@.take(index as int).last() == pipeline.filters@[index - 1]@);
        index = index - 1;
        let was_skipped: bool = index < 32 && filter_mask & (1u32 << (index as u32)) != 0;
        if !was_skipped {
            buf = decode_one(&pipeline.filters[index], buf, expected_len)?;
        }
    }
    Ok(buf)
}

/// Undo a single filter.
fn decode_one(filter: &Filter, data: Vec<u8>, expected_len: usize) -> (r: Result<Vec<u8>>)
    ensures
        seen(r) == undone(filter@, data@),
{
    match filter.id {
        id::DEFLATE => inflate(data.as_slice(), expected_len),
        id::SHUFFLE => {
            // The element size is the filter's one client parameter. A zero or
            // missing value means there is nothing to undo.
            let element_size: usize = if filter.client_data.len() == 0 {
                0
            } else {
                filter.client_data[0] as usize
            };
            Ok(unshuffle(data.as_slice(), element_size))
        },
        id::FLETCHER32 => verify_and_strip_fletcher32(data),
        id::ZSTD => unzstd(data.as_slice(), expected_len),
        id::BLOSC => unblosc(data.as_slice()),
        other => {
            // The "optional" flag says the *writer* could skip this filter if it
            // was unavailable. It says nothing about whether the filter was
            // actually applied to this chunk; the filter mask does, and it has
            // already been consulted. Passing the bytes through here would
            // hand back still-compressed data as if they were values.
            let m = numbered("chunk filter ", other as u64);
            if filter.name.as_str().is_empty() {
                proof {
                    assert(m@ =~= "chunk filter "@ + decimal(other as nat) + Seq::<char>::empty());
                }
                Err(Error::Unsupported(m))
            } else {
                let suffix = add_text(joined(" (", filter.name.as_str()), ")");
                Err(Error::Unsupported(add_text(m, suffix.as_str())))
            }
        },
    }
}

/// Whether every filter in a pipeline can be undone by this reader.
///
/// Callers use this at index time to decide, per variable, whether to fall back
/// to netcdf-c before any data is read.
pub fn pipeline_is_supported(pipeline: &FilterPipeline) -> (r: bool)
    ensures
        r == forall|i: int| 0 <= i < pipeline@.len() ==> supported(#[trigger] pipeline@[i].id),
{
    let mut i: usize = 0;
    while i < pipeline.filters.len()
        invariant
            i <= pipeline@.len() == pipeline.filters@.len(),
            forall|j: int| 0 <= j < i ==> supported(#[trigger] pipeline@[j].id),
        decreases pipeline@.len() - i,
    {
        let known: bool = match pipeline.filters[i].id {
            id::DEFLATE | id::SHUFFLE | id::FLETCHER32 | id::ZSTD | id::BLOSC => true,
            _ => false,
        };
        if !known {
            assert(!supported(pipeline@[i as int].id));
            return false;
        }
        i = i + 1;
    }
    true
}

/// A chunk written without filters is read as it stands.
pub proof fn empty_pipeline_changes_nothing(filter_mask: u32, data: Seq<u8>)
    ensures
        decoded(Seq::empty(), filter_mask, data) == std::result::Result::<Seq<u8>, ErrorView>::Ok(
            data,
        ),
{
}

/// A filter that the mask marks as skipped is not undone, whatever it is.
pub proof fn masked_filter_changes_nothing(
    filters: Seq<FilterView>,
    filter: FilterView,
    filter_mask: u32,
    data: Seq<u8>,
)
    requires
        skipped(filter_mask, filters.len() as int),
    ensures
        decoded(filters.push(filter), filter_mask, data) == decoded(filters, filter_mask, data),
{
    assert(filters.push(filter).drop_last() =~= filters);
}

/// A filter that cannot be undone is refused, whatever its flags say.
pub proof fn unknown_filter_is_refused(
    filters: Seq<FilterView>,
    filter: FilterView,
    filter_mask: u32,
    data: Seq<u8>,
)
    requires
        !supported(filter.id),
        !skipped(filter_mask, filters.len() as int),
    ensures
        decoded(filters.push(filter), filter_mask, data) matches Err(e) && e is Unsupported,
{
}

/// Filters are undone in the reverse of the order in which they are applied:
/// the last one applied is undone first, on the stored bytes.
pub proof fn last_filter_is_undone_first(
    filters: Seq<FilterView>,
    filter: FilterView,
    filter_mask: u32,
    stored: Seq<u8>,
    before: Seq<u8>,
)
    requires
        !skipped(filter_mask, filters.len() as int),
        undone(filter, stored) == std::result::Result::<Seq<u8>, ErrorView>::Ok(before),
    ensures
        decoded(filters.push(filter), filter_mask, stored) == decoded(filters, filter_mask, before),
{
    assert(filters.push(filter).drop_last() =~= filters);
}

/// A chunk that was shuffled and then went through another filter comes back
/// whole once that filter gives back the shuffled bytes.
pub proof fn shuffled_chunk_is_restored(
    original: Seq<u8>,
    stored: Seq<u8>,
    shuffle_filter: FilterView,
    filter: FilterView,
)
    requires
        shuffle_filter.id == id::SHUFFLE,
        undone(filter, stored) == std::result::Result::<Seq<u8>, ErrorView>::Ok(
            shuffled(original, shuffle_size(shuffle_filter)),
        ),
    ensures
        decoded(seq![shuffle_filter, filter], 0, stored) == std::result::Result::<
            Seq<u8>,
            ErrorView,
        >::Ok(original),
{
    let one = seq![shuffle_filter];
    let mid = shuffled(original, shuffle_size(shuffle_filter));
    assert(0u32 & (1u32 << 1u32) == 0) by (bit_vector);
    assert(0u32 & (1u32 << 0u32) == 0) by (bit_vector);
    assert(seq![shuffle_filter, filter] =~= one.push(filter));
    last_filter_is_undone_first(one, filter, 0, stored, mid);
    unshuffle_undoes_shuffle(original, shuffle_size(shuffle_filter));
    assert(one.drop_last() =~= Seq::<FilterView>::empty());
    assert(one.last() == shuffle_filter);
    assert(!skipped(0, 0));
    assert(decoded(one, 0, mid) == decoded(one.drop_last(), 0, original));
}

} // verus!
