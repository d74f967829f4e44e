//! The chunks that a version 4 index lists.

use vstd::prelude::*;

#[allow(unused_imports)]
use crate::btree1::ChunkRecordView;
#[allow(unused_imports)]
use crate::btree2::tree_at;
#[allow(unused_imports)]
use crate::bytes::pow256;
#[allow(unused_imports)]
use crate::chunk_index::{
    block_start, btree2_chunks, chunk_of_record, chunks_along, chunks_of_records, coordinate,
    data_block, element_at, elements_at, extensible_array,
    extensible_header, extent, fixed_array, fixed_block, fixed_header, grid_of, implicit_chunks,
    index_block, indexed_chunks, listed_chunks, offset_of, placed, record_shape, scaled_offsets_at,
    stride, with_data_block, Element, ExtensibleHeader, FixedHeader, RecordShape,
};
#[allow(unused_imports)]
use crate::context::CtxView;
#[allow(unused_imports)]
use crate::cursor::{
    address_at, address_required_at, length_at, skip_at, take_at, u8_at, Parse, Sizes,
};
#[allow(unused_imports)]
use crate::error::ErrorView;
#[allow(unused_imports)]
use crate::laws::arrays::{span, steps};
#[allow(unused_imports)]
use crate::laws::writing::{
    address, addressable, blank, group_writing, holds, le, lemma_blank_len, lemma_holds_address,
    lemma_holds_both, lemma_holds_one, lemma_holds_taken, lemma_holds_u32, lemma_holds_u64,
    lemma_holds_uint,
    lemma_le_len, lemma_sealed, lemma_stands, sealed, stands_at,
};
#[allow(unused_imports)]
use crate::message::layout::ChunkIndex;
#[allow(unused_imports)]
use vstd::arithmetic::power2::pow2;

verus! {

// ── where a chunk stands ───────────────────────────────────────────────────

proof fn lemma_stride(grid: Seq<u64>, axis: int)
    requires
        0 <= axis < grid.len(),
        forall|a: int| 0 <= a < grid.len() ==> #[trigger] grid[a] > 0,
    ensures
        stride(grid, axis) == span(grid, axis + 1),
        span(grid, axis + 1) > 0,
    decreases grid.len() - axis,
{
    if axis + 1 < grid.len() {
        lemma_stride(grid, axis + 1);
        assert(grid[axis + 1] > 0);
        let (x, y) = (grid[axis + 1] as int, span(grid, axis + 2));
        assert(x * y > 0) by (nonlinear_arith)
            requires
                x > 0,
                y > 0,
        ;
    }
}

proof fn lemma_steps_below(at: Seq<int>, grid: Seq<u64>, a: int)
    requires
        0 <= a,
        at.len() == grid.len(),
        forall|i: int| 0 <= i < grid.len() ==> 0 <= #[trigger] at[i] < grid[i],
    ensures
        0 <= steps(at, grid, a) < span(grid, a),
    decreases grid.len() - a,
{
    if a < grid.len() {
        lemma_steps_below(at, grid, a + 1);
        let (x, g, s, r) = (at[a], grid[a] as int, span(grid, a + 1), steps(at, grid, a + 1));
        assert(0 <= x < g);
        assert(0 <= x * s + r < g * s) by (nonlinear_arith)
            requires
                0 <= x < g,
                0 <= r < s,
        ;
    }
}

proof fn lemma_steps_split(at: Seq<int>, grid: Seq<u64>, axis: int) -> (higher: int)
    requires
        0 <= axis <= grid.len(),
        at.len() == grid.len(),
        forall|i: int| 0 <= i < grid.len() ==> 0 <= #[trigger] at[i] < grid[i],
    ensures
        steps(at, grid, 0) == higher * span(grid, axis) + steps(at, grid, axis),
        higher >= 0,
    decreases axis,
{
    if axis == 0 {
        assert(0 * span(grid, 0) == 0);
        0
    } else {
        let h = lemma_steps_split(at, grid, axis - 1);
        let (g, s, x) = (grid[axis - 1] as int, span(grid, axis), at[axis - 1]);
        assert(0 <= x < g);
        assert(h * (g * s) + (x * s + steps(at, grid, axis)) == (h * g + x) * s + steps(
            at,
            grid,
            axis,
        )) by (nonlinear_arith);
        assert(h * g + x >= 0) by (nonlinear_arith)
            requires
                h >= 0,
                g >= 0,
                x >= 0,
        ;
        h * g + x
    }
}

/// The chunk with the coordinates `at` in the grid of chunks has the number of chunks
/// before it, row by row, and starts as many chunk extents from the origin along each
/// axis as its coordinate says.
pub proof fn chunks_are_numbered_row_by_row(
    at: Seq<int>,
    grid: Seq<u64>,
    dims: Seq<u64>,
    axis: int,
)
    requires
        at.len() == grid.len(),
        grid.len() <= dims.len(),
        forall|i: int| 0 <= i < grid.len() ==> 0 <= #[trigger] at[i] < grid[i],
        0 <= axis < grid.len(),
        at[axis] * dims[axis] <= u64::MAX,
    ensures
        0 <= steps(at, grid, 0) < span(grid, 0),
        offset_of(steps(at, grid, 0), grid, dims).len() == grid.len(),
        offset_of(steps(at, grid, 0), grid, dims)[axis] == at[axis] * dims[axis],
{
    assert forall|a: int| 0 <= a < grid.len() implies #[trigger] grid[a] > 0 by {
        assert(0 <= at[a] < grid[a]);
    }
    lemma_stride(grid, axis);
    lemma_steps_below(at, grid, axis + 1);
    lemma_steps_below(at, grid, 0);
    let h = lemma_steps_split(at, grid, axis + 1);
    let h2 = lemma_steps_split(at, grid, axis);
    let s = span(grid, axis + 1);
    let r = steps(at, grid, axis + 1);
    let n = steps(at, grid, 0);
    let (g, x) = (grid[axis] as int, at[axis]);
    assert(0 <= x < g);
    assert(n == h2 * (g * s) + (x * s + r));
    assert(n == (h2 * g + x) * s + r) by (nonlinear_arith)
        requires
            n == h2 * (g * s) + (x * s + r),
    ;
    vstd::arithmetic::div_mod::lemma_fundamental_div_mod_converse(n, s, h2 * g + x, r);
    assert(n / s == h2 * g + x);
    vstd::arithmetic::div_mod::lemma_fundamental_div_mod_converse(h2 * g + x, g, h2, x);
    assert(coordinate(n, grid, axis) == x);
    assert(x * dims[axis] >= 0) by (nonlinear_arith)
        requires
            x >= 0,
            dims[axis] >= 0,
    ;
}

/// Along each axis there are as many chunks as it takes to hold the extent, and no more.
pub proof fn a_grid_has_the_chunks_it_needs(shape: Seq<u64>, dims: Seq<u64>, axis: int)
    requires
        shape.len() == dims.len(),
        0 <= axis < shape.len(),
        dims[axis] > 0,
    ensures
        grid_of(shape, dims).len() == shape.len(),
        grid_of(shape, dims)[axis] * dims[axis] >= shape[axis],
        shape[axis] > 0 ==> (grid_of(shape, dims)[axis] - 1) * dims[axis] < shape[axis],
        shape[axis] == 0 ==> grid_of(shape, dims)[axis] == 0,
{
    let (s, c) = (shape[axis] as int, dims[axis] as int);
    let n = (s + c - 1) / c;
    assert(n * c >= s && (n - 1) * c < s && 0 <= n <= s && (s == 0 ==> n == 0)) by (nonlinear_arith)
        requires
            n == (s + c - 1) / c,
            c > 0,
            s >= 0,
    ;
}

// ── which chunks there are ─────────────────────────────────────────────────

/// The record of chunk number `i`: a size of zero stands for a whole chunk.
pub open spec fn record_of(
    e: Element,
    i: int,
    grid: Seq<u64>,
    dims: Seq<u64>,
    full_size: u64,
) -> ChunkRecordView {
    ChunkRecordView {
        size: if e.size == 0 {
            full_size as u32
        } else {
            e.size
        },
        filter_mask: e.filter_mask,
        offset: offset_of(i, grid, dims),
        address: e.address->Some_0,
    }
}

/// How many of the first `n` elements have an address.
pub open spec fn written_among(elements: Seq<Element>, n: int) -> nat
    decreases n,
{
    if n <= 0 {
        0
    } else {
        written_among(elements, n - 1) + if elements[n - 1].address is Some {
            1nat
        } else {
            0nat
        }
    }
}

/// Every element of an array index that has an address is a chunk: the one with its
/// number. Those without one were never written. They come in the order of their
/// numbers.
pub proof fn every_written_element_is_a_chunk(
    elements: Seq<Element>,
    n: nat,
    grid: Seq<u64>,
    dims: Seq<u64>,
    full_size: u64,
    i: int,
)
    requires
        n <= elements.len(),
        0 <= i < n,
    ensures
        placed(elements, n, grid, dims, full_size).len() == written_among(elements, n as int),
        written_among(elements, i) <= written_among(elements, i + 1) <= written_among(
            elements,
            n as int,
        ),
        elements[i].address is Some ==> placed(
            elements,
            n,
            grid,
            dims,
            full_size,
        )[written_among(elements, i) as int] == record_of(elements[i], i, grid, dims, full_size),
    decreases n,
{
    let m = (n - 1) as nat;
    if i < m {
        every_written_element_is_a_chunk(elements, m, grid, dims, full_size, i);
    } else if m > 0 {
        every_written_element_is_a_chunk(elements, m, grid, dims, full_size, 0);
    } else {
        reveal_with_fuel(placed, 2);
        reveal_with_fuel(written_among, 2);
    }
}

/// An implicit index has every chunk, one behind the other.
pub proof fn implicit_chunks_stand_one_behind_the_other(
    ctx: CtxView,
    at: u64,
    shape: Seq<u64>,
    dims: Seq<u64>,
    full_size: u64,
    total: u64,
    filtered: bool,
    i: int,
)
    requires
        total <= ctx.image.bytes.len(),
        at + total * full_size <= u64::MAX,
        0 <= i < total,
    ensures
        ({
            let r = listed_chunks(
                ctx,
                ChunkIndex::Implicit,
                at,
                shape,
                dims,
                full_size,
                total,
                filtered,
            );
            &&& r is Ok
            &&& r->Ok_0.len() == total
            &&& r->Ok_0[i].address == at + i * full_size
            &&& r->Ok_0[i].size == full_size as u32
            &&& r->Ok_0[i].filter_mask == 0
            &&& r->Ok_0[i].offset == offset_of(i, grid_of(shape, dims), dims)
        }),
{
    assert((total - 1) * full_size <= total * full_size && 0 <= i * full_size <= total * full_size)
        by (nonlinear_arith)
        requires
            0 <= i < total,
            full_size >= 0,
    ;
}

/// A single chunk stands at the origin. It takes the size that was stored with it where
/// it went through filters, and that of a whole chunk where it did not.
pub proof fn a_single_chunk_stands_at_the_origin(
    ctx: CtxView,
    stored: u64,
    mask: u32,
    at: u64,
    shape: Seq<u64>,
    dims: Seq<u64>,
    full_size: u64,
    total: u64,
    filtered: bool,
)
    ensures
        ({
            let r = listed_chunks(
                ctx,
                ChunkIndex::SingleChunk { filtered_size: stored, filter_mask: mask },
                at,
                shape,
                dims,
                full_size,
                total,
                filtered,
            );
            &&& r is Ok
            &&& r->Ok_0.len() == 1
            &&& r->Ok_0[0].address == at
            &&& filtered ==> r->Ok_0[0].size == stored as u32
            &&& !filtered ==> r->Ok_0[0].size == full_size as u32
            &&& r->Ok_0[0].filter_mask == mask
            &&& r->Ok_0[0].offset.len() == shape.len()
            &&& forall|a: int| 0 <= a < shape.len() ==> #[trigger] r->Ok_0[0].offset[a] == 0
        }),
{
}

/// Without an address nothing was ever written.
pub proof fn without_an_address_there_is_no_chunk(
    ctx: CtxView,
    index: ChunkIndex,
    shape: Seq<u64>,
    dims: Seq<u64>,
    width: nat,
    filtered: bool,
)
    ensures
        indexed_chunks(ctx, index, None, shape, dims, width, filtered) matches Ok(r) && r.len()
            == 0,
{
}

/// A whole chunk takes the product of its extents times the width of an element, and
/// the grid has the product of its extents many.
pub proof fn an_index_is_asked_for_whole_chunks(
    ctx: CtxView,
    index: ChunkIndex,
    at: u64,
    shape: Seq<u64>,
    dims: Seq<u64>,
    width: nat,
    filtered: bool,
)
    requires
        width <= u64::MAX,
        span(dims, 0) * width <= u64::MAX,
        span(grid_of(shape, dims), 0) <= u64::MAX,
    ensures
        indexed_chunks(ctx, index, Some(at), shape, dims, width, filtered) == listed_chunks(
            ctx,
            index,
            at,
            shape,
            dims,
            (span(dims, 0) * width) as u64,
            span(grid_of(shape, dims), 0) as u64,
            filtered,
        ),
{
    crate::laws::arrays::extents_multiply(dims);
    crate::laws::arrays::extents_multiply(grid_of(shape, dims));
    assert(dims.push(width as u64).drop_last() =~= dims);
}

// ── elements in the file ───────────────────────────────────────────────────

/// An element of a filtered index carries its size and the filters it left out; that of
/// any other only its address.
pub open spec fn element_written(e: Element, entry_size: u8, client: u8, sizes: Sizes) -> Seq<u8> {
    if client == 1 {
        address(e.address, sizes) + (le(e.size as nat, (entry_size - sizes.offset - 4) as nat)
            + le(e.filter_mask as nat, 4))
    } else {
        address(e.address, sizes)
    }
}

/// The element can be written in an entry of this size.
pub open spec fn element_fits(e: Element, entry_size: u8, client: u8, sizes: Sizes) -> bool {
    &&& addressable(e.address, sizes)
    &&& client == 1 ==> sizes.offset + 4 <= entry_size <= sizes.offset + 12 && e.size < pow256(
        (entry_size - sizes.offset - 4) as nat,
    )
    &&& client != 1 ==> entry_size == sizes.offset && e.size == 0 && e.filter_mask == 0
}

/// Elements, one behind the other.
pub open spec fn elements_written(
    es: Seq<Element>,
    entry_size: u8,
    client: u8,
    sizes: Sizes,
) -> Seq<u8>
    decreases es.len(),
{
    if es.len() == 0 {
        Seq::empty()
    } else {
        element_written(es[0], entry_size, client, sizes) + elements_written(
            es.skip(1),
            entry_size,
            client,
            sizes,
        )
    }
}

proof fn lemma_element(b: Seq<u8>, p: int, e: Element, entry_size: u8, client: u8, sizes: Sizes)
    requires
        element_fits(e, entry_size, client, sizes),
        holds(b, p, element_written(e, entry_size, client, sizes)),
    ensures
        element_at(b, p, entry_size, client, sizes) == Parse::<Element>::Ok((e, p + entry_size)),
        element_written(e, entry_size, client, sizes).len() == entry_size,
{
    if client == 1 {
        let w = (entry_size - sizes.offset - 4) as u8;
        let (s, m) = (le(e.size as nat, w as nat), le(e.filter_mask as nat, 4));
        lemma_le_len(e.size as nat, w as nat);
        lemma_le_len(e.filter_mask as nat, 4);
        lemma_holds_both(b, p, address(e.address, sizes), s + m);
        lemma_holds_address(b, p, e.address, sizes);
        let p1 = p + sizes.offset;
        lemma_holds_both(b, p1, s, m);
        lemma_holds_uint(b, p1, e.size as nat, w);
        lemma_holds_u32(b, p1 + w, e.filter_mask as nat);
    } else {
        lemma_holds_address(b, p, e.address, sizes);
    }
}

proof fn lemma_elements(
    b: Seq<u8>,
    p: int,
    es: Seq<Element>,
    entry_size: u8,
    client: u8,
    sizes: Sizes,
    out: Seq<Element>,
)
    requires
        forall|i: int|
            0 <= i < es.len() ==> element_fits(#[trigger] es[i], entry_size, client, sizes),
        holds(b, p, elements_written(es, entry_size, client, sizes)),
    ensures
        elements_at(b, p, es.len(), entry_size, client, sizes, out) == Parse::<Seq<Element>>::Ok(
            (out + es, p + es.len() * entry_size),
        ),
        elements_written(es, entry_size, client, sizes).len() == es.len() * entry_size,
    decreases es.len(),
{
    if es.len() > 0 {
        let first = element_written(es[0], entry_size, client, sizes);
        let rest = elements_written(es.skip(1), entry_size, client, sizes);
        assert(element_fits(es[0], entry_size, client, sizes));
        lemma_holds_both(b, p, first, rest);
        lemma_element(b, p, es[0], entry_size, client, sizes);
        let more = out.push(es[0]);
        assert forall|i: int| 0 <= i < es.skip(1).len() implies element_fits(
            #[trigger] es.skip(1)[i],
            entry_size,
            client,
            sizes,
        ) by {
            assert(element_fits(es[i + 1], entry_size, client, sizes));
        }
        lemma_elements(b, p + entry_size, es.skip(1), entry_size, client, sizes, more);
        assert(more + es.skip(1) =~= out + es);
        let (n, w) = (es.len() as int, entry_size as int);
        assert(n * w == (n - 1) * w + w) by (nonlinear_arith);
    } else {
        assert(out + es =~= out);
        assert(0 * entry_size == 0);
    }
}

proof fn lemma_start(b: Seq<u8>, sig: Seq<u8>, rest: Seq<u8>, what: Seq<char>)
    requires
        sig.len() == 4,
        holds(b, 0, sig + (seq![0u8] + rest)),
    ensures
        block_start(b, sig, what) == Parse::<()>::Ok(((), 5)),
        holds(b, 5, rest),
{
    lemma_holds_both(b, 0, sig, seq![0u8] + rest);
    lemma_holds_taken(b, 0, sig);
    lemma_holds_both(b, 4, seq![0u8], rest);
    lemma_holds_one(b, 4, 0);
}

// ── fixed arrays ───────────────────────────────────────────────────────────

/// The header of a fixed array.
pub open spec fn fixed_header_written(h: FixedHeader, sizes: Sizes) -> Seq<u8> {
    sealed(
        seq![0x46u8, 0x41u8, 0x48u8, 0x44u8] + (seq![0u8] + (seq![h.client_id] + (seq![
            h.entry_size,
        ] + (seq![h.page_bits] + (le(h.max_entries as nat, sizes.length as nat) + address(
            h.data_block,
            sizes,
        )))))),
    )
}

/// The data block of a fixed array: the header's address, then the elements.
pub open spec fn fixed_block_written(
    h: FixedHeader,
    at: u64,
    es: Seq<Element>,
    sizes: Sizes,
) -> Seq<u8> {
    sealed(
        seq![0x46u8, 0x41u8, 0x44u8, 0x42u8] + (seq![0u8] + (seq![h.client_id] + (address(
            Some(at),
            sizes,
        ) + elements_written(es, h.entry_size, h.client_id, sizes)))),
    )
}

proof fn lemma_fixed_header(h: FixedHeader, sizes: Sizes)
    requires
        0 < sizes.length <= 8,
        h.max_entries < pow256(sizes.length as nat),
        addressable(h.data_block, sizes),
    ensures
        fixed_header_written(h, sizes).len() == 12 + sizes.length + sizes.offset,
        fixed_header(fixed_header_written(h, sizes), sizes) == std::result::Result::<
            FixedHeader,
            ErrorView,
        >::Ok(h),
{
    let b = fixed_header_written(h, sizes);
    let sig = seq![0x46u8, 0x41u8, 0x48u8, 0x44u8];
    let n = le(h.max_entries as nat, sizes.length as nat);
    let t4 = n + address(h.data_block, sizes);
    let t3 = seq![h.page_bits] + t4;
    let t2 = seq![h.entry_size] + t3;
    let t1 = seq![h.client_id] + t2;
    let s = sig + (seq![0u8] + t1);
    assert(b == sealed(s));
    lemma_sealed(s, "fixed array header"@);
    assert(crate::chunk_index::FAHD_SIGNATURE@ =~= sig);
    lemma_start(b, sig, t1, "fixed array header"@);
    lemma_holds_both(b, 5, seq![h.client_id], t2);
    lemma_holds_one(b, 5, h.client_id);
    lemma_holds_both(b, 6, seq![h.entry_size], t3);
    lemma_holds_one(b, 6, h.entry_size);
    lemma_holds_both(b, 7, seq![h.page_bits], t4);
    lemma_holds_one(b, 7, h.page_bits);
    lemma_le_len(h.max_entries as nat, sizes.length as nat);
    lemma_holds_both(b, 8, n, address(h.data_block, sizes));
    lemma_holds_uint(b, 8, h.max_entries as nat, sizes.length);
    lemma_holds_address(b, 8 + sizes.length, h.data_block, sizes);
    assert(b.len() - 4 == s.len());
}

/// A fixed array gives back the elements that were written, in order.
pub proof fn a_fixed_array_reads_as_it_was_written(
    ctx: CtxView,
    at: u64,
    block: u64,
    h: FixedHeader,
    es: Seq<Element>,
)
    requires
        0 < ctx.sizes().length <= 8,
        es.len() == h.max_entries,
        es.len() < pow256(ctx.sizes().length as nat),
        h.data_block == Some(block),
        h.page_bits == 0 || (h.page_bits < 64 && h.max_entries <= pow2(h.page_bits as nat)),
        addressable(Some(at), ctx.sizes()),
        addressable(Some(block), ctx.sizes()),
        forall|i: int|
            0 <= i < es.len() ==> element_fits(
                #[trigger] es[i],
                h.entry_size,
                h.client_id,
                ctx.sizes(),
            ),
        stands_at(ctx, at, fixed_header_written(h, ctx.sizes())),
        stands_at(ctx, block, fixed_block_written(h, at, es, ctx.sizes())),
    ensures
        fixed_array(ctx, at) == std::result::Result::<Seq<Element>, ErrorView>::Ok(es),
{
    let sizes = ctx.sizes();
    lemma_fixed_header(h, sizes);
    lemma_stands(ctx, at, fixed_header_written(h, sizes));
    let b = fixed_block_written(h, at, es, sizes);
    lemma_stands(ctx, block, b);
    let sig = seq![0x46u8, 0x41u8, 0x44u8, 0x42u8];
    let items = elements_written(es, h.entry_size, h.client_id, sizes);
    let t2 = address(Some(at), sizes) + items;
    let t1 = seq![h.client_id] + t2;
    let s = sig + (seq![0u8] + t1);
    assert(b == sealed(s));
    lemma_sealed(s, "fixed array data block"@);
    assert(crate::chunk_index::FADB_SIGNATURE@ =~= sig);
    lemma_start(b, sig, t1, "fixed array data block"@);
    lemma_holds_both(b, 5, seq![h.client_id], t2);
    lemma_holds_taken(b, 5, seq![h.client_id]);
    lemma_holds_both(b, 6, address(Some(at), sizes), items);
    lemma_holds_address(b, 6, Some(at), sizes);
    lemma_holds_taken(b, 6, address(Some(at), sizes));
    lemma_elements(b, 6 + sizes.offset, es, h.entry_size, h.client_id, sizes, Seq::empty());
    assert(Seq::<Element>::empty() + es =~= es);
    assert(b.len() - 4 == s.len());
    assert(b.len() == 10 + sizes.offset + h.max_entries * h.entry_size);
    if 0 < h.page_bits < 64 {
        lemma_page(h.page_bits);
    }
}

proof fn lemma_page(bits: u8)
    requires
        0 < bits < 64,
    ensures
        (1u64 << bits) == pow2(bits as nat),
{
    vstd::arithmetic::power2::lemma2_to64();
    vstd::arithmetic::power2::lemma2_to64_rest();
    if bits < 63 {
        vstd::arithmetic::power2::lemma_pow2_strictly_increases(bits as nat, 63);
    }
    vstd::bits::lemma_u64_shl_is_mul(1, bits as u64);
    assert((1u64 << bits) == (1u64 << (bits as u64))) by (bit_vector);
}

/// A fixed array whose elements would stand in pages is refused.
pub proof fn a_paged_fixed_array_is_refused(ctx: CtxView, at: u64, block: u64, h: FixedHeader)
    requires
        0 < ctx.sizes().length <= 8,
        h.max_entries < pow256(ctx.sizes().length as nat),
        h.data_block == Some(block),
        0 < h.page_bits < 64,
        h.max_entries > pow2(h.page_bits as nat),
        addressable(Some(block), ctx.sizes()),
        stands_at(ctx, at, fixed_header_written(h, ctx.sizes())),
    ensures
        fixed_array(ctx, at) is Err,
        fixed_array(ctx, at)->Err_0 is Unsupported,
{
    lemma_fixed_header(h, ctx.sizes());
    lemma_stands(ctx, at, fixed_header_written(h, ctx.sizes()));
    lemma_page(h.page_bits);
}

// ── extensible arrays ──────────────────────────────────────────────────────

/// What stands before the elements of an extensible array: six counts, of which one
/// says how many elements are set.
pub struct Counts {
    pub super_blocks: nat,
    pub super_block_bytes: nat,
    pub data_blocks: nat,
    pub data_block_bytes: nat,
    pub realized: nat,
}

/// The counts can be written.
pub open spec fn countable(c: Counts, sizes: Sizes) -> bool {
    let top = pow256(sizes.length as nat);
    &&& 0 < sizes.length <= 8
    &&& c.super_blocks < top
    &&& c.super_block_bytes < top
    &&& c.data_blocks < top
    &&& c.data_block_bytes < top
    &&& c.realized < top
}

/// The header of an extensible array.
pub open spec fn extensible_header_written(
    h: ExtensibleHeader,
    c: Counts,
    pages: u8,
    pointers: u8,
    sizes: Sizes,
) -> Seq<u8> {
    let w = sizes.length as nat;
    sealed(
        seq![0x45u8, 0x41u8, 0x48u8, 0x44u8] + (seq![0u8] + (seq![h.client_id] + (seq![
            h.element_size,
        ] + (seq![h.max_nelmts_bits] + (seq![h.index_block_elements] + (seq![
            h.data_block_min_elements,
        ] + (seq![pointers] + (seq![pages] + (le(c.super_blocks, w) + (le(c.super_block_bytes, w)
            + (le(c.data_blocks, w) + (le(c.data_block_bytes, w) + (le(h.max_index_set as nat, w)
            + (le(c.realized, w) + address(h.index_block, sizes)))))))))))))))
    )
}

#[verifier::spinoff_prover]
proof fn lemma_extensible_header(
    h: ExtensibleHeader,
    c: Counts,
    pages: u8,
    pointers: u8,
    sizes: Sizes,
)
    requires
        countable(c, sizes),
        h.max_index_set < pow256(sizes.length as nat),
        addressable(h.index_block, sizes),
    ensures
        extensible_header_written(h, c, pages, pointers, sizes).len() == 16 + 6 * sizes.length
            + sizes.offset,
        extensible_header(extensible_header_written(h, c, pages, pointers, sizes), sizes)
            == std::result::Result::<ExtensibleHeader, ErrorView>::Ok(h),
{
    let b = extensible_header_written(h, c, pages, pointers, sizes);
    let w = sizes.length as nat;
    let l = sizes.length as int;
    let sig = seq![0x45u8, 0x41u8, 0x48u8, 0x44u8];
    let at = address(h.index_block, sizes);
    let t13 = le(c.realized, w) + at;
    let t12 = le(h.max_index_set as nat, w) + t13;
    let t11 = le(c.data_block_bytes, w) + t12;
    let t10 = le(c.data_blocks, w) + t11;
    let t9 = le(c.super_block_bytes, w) + t10;
    let t8 = le(c.super_blocks, w) + t9;
    let t7 = seq![pages] + t8;
    let t6 = seq![pointers] + t7;
    let t5 = seq![h.data_block_min_elements] + t6;
    let t4 = seq![h.index_block_elements] + t5;
    let t3 = seq![h.max_nelmts_bits] + t4;
    let t2 = seq![h.element_size] + t3;
    let t1 = seq![h.client_id] + t2;
    let s = sig + (seq![0u8] + t1);
    assert(b == sealed(s));
    lemma_sealed(s, "extensible array header"@);
    assert(crate::chunk_index::EAHD_SIGNATURE@ =~= sig);
    lemma_start(b, sig, t1, "extensible array header"@);
    lemma_holds_both(b, 5, seq![h.client_id], t2);
    lemma_holds_one(b, 5, h.client_id);
    lemma_holds_both(b, 6, seq![h.element_size], t3);
    lemma_holds_one(b, 6, h.element_size);
    lemma_holds_both(b, 7, seq![h.max_nelmts_bits], t4);
    lemma_holds_one(b, 7, h.max_nelmts_bits);
    lemma_holds_both(b, 8, seq![h.index_block_elements], t5);
    lemma_holds_one(b, 8, h.index_block_elements);
    lemma_holds_both(b, 9, seq![h.data_block_min_elements], t6);
    lemma_holds_one(b, 9, h.data_block_min_elements);
    lemma_holds_both(b, 10, seq![pointers], t7);
    lemma_holds_one(b, 10, pointers);
    lemma_holds_both(b, 11, seq![pages], t8);
    lemma_holds_one(b, 11, pages);
    lemma_le_len(c.super_blocks, w);
    lemma_le_len(c.super_block_bytes, w);
    lemma_le_len(c.data_blocks, w);
    lemma_le_len(c.data_block_bytes, w);
    lemma_le_len(h.max_index_set as nat, w);
    lemma_le_len(c.realized, w);
    lemma_holds_both(b, 12, le(c.super_blocks, w), t9);
    lemma_holds_uint(b, 12, c.super_blocks, sizes.length);
    lemma_holds_both(b, 12 + l, le(c.super_block_bytes, w), t10);
    lemma_holds_uint(b, 12 + l, c.super_block_bytes, sizes.length);
    lemma_holds_both(b, 12 + 2 * l, le(c.data_blocks, w), t11);
    lemma_holds_uint(b, 12 + 2 * l, c.data_blocks, sizes.length);
    lemma_holds_both(b, 12 + 3 * l, le(c.data_block_bytes, w), t12);
    lemma_holds_uint(b, 12 + 3 * l, c.data_block_bytes, sizes.length);
    lemma_holds_both(b, 12 + 4 * l, le(h.max_index_set as nat, w), t13);
    lemma_holds_uint(b, 12 + 4 * l, h.max_index_set as nat, sizes.length);
    lemma_holds_both(b, 12 + 5 * l, le(c.realized, w), at);
    lemma_holds_uint(b, 12 + 5 * l, c.realized, sizes.length);
    lemma_holds_address(b, 12 + 6 * l, h.index_block, sizes);
    assert(b.len() - 4 == s.len());
}

/// The largest power of two that is not above a number has the exponent that is
/// computed for it.
pub proof fn a_logarithm_is_rounded_down(value: nat, k: nat)
    requires
        pow2(k) <= value < pow2(k + 1),
    ensures
        crate::chunk_index::floor_log2(value) == k,
    decreases k,
{
    vstd::arithmetic::power2::lemma2_to64();
    vstd::arithmetic::power2::lemma_pow2_unfold(k + 1);
    if k == 0 {
    } else {
        vstd::arithmetic::power2::lemma_pow2_unfold(k);
        vstd::arithmetic::power2::lemma_pow2_pos((k - 1) as nat);
        a_logarithm_is_rounded_down(value / 2, (k - 1) as nat);
    }
}

/// The index block of an extensible array: the header's address, room for the elements
/// it holds itself, and the addresses of the data blocks.
pub open spec fn index_block_written(
    h: ExtensibleHeader,
    at: u64,
    inline: Seq<Element>,
    unused: Seq<u8>,
    first: Option<u64>,
    second: Option<u64>,
    more: Seq<u8>,
    sizes: Sizes,
) -> Seq<u8> {
    sealed(
        seq![0x45u8, 0x41u8, 0x49u8, 0x42u8] + (seq![0u8] + (seq![h.client_id] + (address(
            Some(at),
            sizes,
        ) + (elements_written(inline, h.element_size, h.client_id, sizes) + (unused + (address(
            first,
            sizes,
        ) + (address(second, sizes) + more))))))),
    )
}

/// A data block of an extensible array: the header's address, the number of its first
/// element, the elements, and room for more.
pub open spec fn data_block_written(
    h: ExtensibleHeader,
    at: u64,
    number: Seq<u8>,
    es: Seq<Element>,
    unused: Seq<u8>,
    sizes: Sizes,
) -> Seq<u8> {
    sealed(
        seq![0x45u8, 0x41u8, 0x44u8, 0x42u8] + (seq![0u8] + (seq![h.client_id] + (address(
            Some(at),
            sizes,
        ) + (number + (elements_written(es, h.element_size, h.client_id, sizes) + unused))))),
    )
}

/// Every element fits in its entry.
pub open spec fn all_fit(es: Seq<Element>, h: ExtensibleHeader, sizes: Sizes) -> bool {
    forall|i: int|
        0 <= i < es.len() ==> element_fits(#[trigger] es[i], h.element_size, h.client_id, sizes)
}

#[verifier::spinoff_prover]
#[verifier::rlimit(60)]
proof fn lemma_index_block(
    h: ExtensibleHeader,
    at: u64,
    inline: Seq<Element>,
    unused: Seq<u8>,
    first: Option<u64>,
    second: Option<u64>,
    more: Seq<u8>,
    sizes: Sizes,
)
    requires
        addressable(Some(at), sizes),
        addressable(first, sizes),
        addressable(second, sizes),
        all_fit(inline, h, sizes),
        inline.len() == if h.max_index_set < h.index_block_elements {
            h.max_index_set as int
        } else {
            h.index_block_elements as int
        },
        unused.len() == (h.index_block_elements - inline.len()) * h.element_size,
    ensures
        ({
            let b = index_block_written(h, at, inline, unused, first, second, more, sizes);
            &&& b.len() == 10 + sizes.offset + h.index_block_elements * h.element_size + 2
                * sizes.offset + more.len()
            &&& index_block(b, h, sizes) == std::result::Result::<
                (Seq<Element>, Option<u64>, Option<u64>),
                ErrorView,
            >::Ok(
                if inline.len() >= h.max_index_set {
                    (inline, None, None)
                } else {
                    (inline, first, second)
                },
            )
        }),
{
    let b = index_block_written(h, at, inline, unused, first, second, more, sizes);
    let sig = seq![0x45u8, 0x41u8, 0x49u8, 0x42u8];
    let (a1, a2) = (address(first, sizes), address(second, sizes));
    let items = elements_written(inline, h.element_size, h.client_id, sizes);
    let t4 = a1 + (a2 + more);
    let t3 = unused + t4;
    let t2 = items + t3;
    let t1 = address(Some(at), sizes) + t2;
    let s = sig + (seq![0u8] + (seq![h.client_id] + t1));
    assert(b == sealed(s));
    lemma_sealed(s, "extensible array index block"@);
    assert(crate::chunk_index::EAIB_SIGNATURE@ =~= sig);
    lemma_start(b, sig, seq![h.client_id] + t1, "extensible array index block"@);
    lemma_holds_both(b, 5, seq![h.client_id], t1);
    lemma_holds_taken(b, 5, seq![h.client_id]);
    lemma_holds_both(b, 6, address(Some(at), sizes), t2);
    lemma_holds_address(b, 6, Some(at), sizes);
    lemma_holds_taken(b, 6, address(Some(at), sizes));
    let p = 6 + sizes.offset;
    lemma_holds_both(b, p, items, t3);
    lemma_elements(b, p, inline, h.element_size, h.client_id, sizes, Seq::empty());
    assert(Seq::<Element>::empty() + inline =~= inline);
    let p1 = p + items.len();
    lemma_holds_both(b, p1, unused, t4);
    lemma_holds_taken(b, p1, unused);
    let p2 = p1 + unused.len();
    lemma_holds_both(b, p2, a1, a2 + more);
    lemma_holds_address(b, p2, first, sizes);
    lemma_holds_both(b, p2 + sizes.offset, a2, more);
    lemma_holds_address(b, p2 + sizes.offset, second, sizes);
    assert(b.len() - 4 == s.len());
    let (n, m, w) = (
        inline.len() as int,
        h.index_block_elements as int,
        h.element_size as int,
    );
    assert(n * w + (m - n) * w == m * w) by (nonlinear_arith);
}

#[verifier::spinoff_prover]
proof fn lemma_data_block(
    ctx: CtxView,
    block: u64,
    h: ExtensibleHeader,
    at: u64,
    number: Seq<u8>,
    es: Seq<Element>,
    unused: Seq<u8>,
    capacity: nat,
)
    requires
        addressable(Some(at), ctx.sizes()),
        all_fit(es, h, ctx.sizes()),
        es.len() <= capacity,
        number.len() == (h.max_nelmts_bits + 7) / 8,
        unused.len() == (capacity - es.len()) * h.element_size,
        stands_at(ctx, block, data_block_written(h, at, number, es, unused, ctx.sizes())),
    ensures
        data_block(ctx, block, es.len(), capacity, h) == std::result::Result::<
            Seq<Element>,
            ErrorView,
        >::Ok(es),
{
    let sizes = ctx.sizes();
    let b = data_block_written(h, at, number, es, unused, sizes);
    let sig = seq![0x45u8, 0x41u8, 0x44u8, 0x42u8];
    let items = elements_written(es, h.element_size, h.client_id, sizes);
    let t3 = items + unused;
    let t2 = number + t3;
    let t1 = address(Some(at), sizes) + t2;
    let s = sig + (seq![0u8] + (seq![h.client_id] + t1));
    assert(b == sealed(s));
    lemma_sealed(s, "extensible array data block"@);
    assert(crate::chunk_index::EADB_SIGNATURE@ =~= sig);
    lemma_start(b, sig, seq![h.client_id] + t1, "extensible array data block"@);
    lemma_holds_both(b, 5, seq![h.client_id], t1);
    lemma_holds_taken(b, 5, seq![h.client_id]);
    lemma_holds_both(b, 6, address(Some(at), sizes), t2);
    lemma_holds_address(b, 6, Some(at), sizes);
    lemma_holds_taken(b, 6, address(Some(at), sizes));
    let p = 6 + sizes.offset;
    lemma_holds_both(b, p, number, t3);
    lemma_holds_taken(b, p, number);
    let p1 = p + number.len();
    lemma_holds_both(b, p1, items, unused);
    lemma_elements(b, p1, es, h.element_size, h.client_id, sizes, Seq::empty());
    assert(Seq::<Element>::empty() + es =~= es);
    assert(b.len() - 4 == s.len());
    let (n, m, w) = (es.len() as int, capacity as int, h.element_size as int);
    assert(n * w + (m - n) * w == m * w) by (nonlinear_arith);
    lemma_stands(ctx, block, b);
}

/// A part of an extensible array that has a block of its own: where the block is, and
/// the elements in it. Elements without a block were never written.
pub struct Part {
    pub address: Option<u64>,
    pub number: Seq<u8>,
    pub elements: Seq<Element>,
    pub unused: Seq<u8>,
}

impl Part {
    /// The part stands in the file, in a block with room for `capacity` elements.
    pub open spec fn stands(self, ctx: CtxView, h: ExtensibleHeader, at: u64, capacity: nat) -> bool {
        &&& addressable(self.address, ctx.sizes())
        &&& self.elements.len() <= capacity
        &&& match self.address {
            Some(block) => {
                &&& all_fit(self.elements, h, ctx.sizes())
                &&& self.number.len() == (h.max_nelmts_bits + 7) / 8
                &&& self.unused.len() == (capacity - self.elements.len()) * h.element_size
                &&& stands_at(
                    ctx,
                    block,
                    data_block_written(
                        h,
                        at,
                        self.number,
                        self.elements,
                        self.unused,
                        ctx.sizes(),
                    ),
                )
            },
            None => forall|i: int|
                0 <= i < self.elements.len() ==> (#[trigger] self.elements[i]) == (Element {
                    address: None,
                    size: 0,
                    filter_mask: 0,
                }),
        }
    }
}

proof fn lemma_part(
    ctx: CtxView,
    h: ExtensibleHeader,
    at: u64,
    part: Part,
    sblk: nat,
    capacity: nat,
    out: Seq<Element>,
)
    requires
        addressable(Some(at), ctx.sizes()),
        part.stands(ctx, h, at, capacity),
        capacity == crate::chunk_index::block_capacity(sblk, h.data_block_min_elements as nat),
        out.len() + part.elements.len() <= h.max_index_set,
        out.len() + part.elements.len() < h.max_index_set ==> part.elements.len() == capacity,
    ensures
        with_data_block(ctx, sblk, part.address, h, out) == std::result::Result::<
            Seq<Element>,
            ErrorView,
        >::Ok(out + part.elements),
{
    if out.len() >= h.max_index_set {
        assert(out + part.elements =~= out);
    } else {
        match part.address {
            None => {
                assert(part.elements =~= Seq::new(
                    part.elements.len(),
                    |i: int| crate::chunk_index::unwritten(),
                ));
            },
            Some(block) => {
                lemma_data_block(
                    ctx,
                    block,
                    h,
                    at,
                    part.number,
                    part.elements,
                    part.unused,
                    capacity,
                );
            },
        }
    }
}

/// An extensible array gives back the elements that were written, in order: those that
/// the index block holds itself, then those of the first data block, then those of the
/// second, which has twice the room.
pub proof fn an_extensible_array_reads_as_it_was_written(
    ctx: CtxView,
    at: u64,
    block: u64,
    h: ExtensibleHeader,
    c: Counts,
    pages: u8,
    pointers: u8,
    inline: Seq<Element>,
    unused: Seq<u8>,
    first: Part,
    second: Part,
    more: Seq<u8>,
    k: nat,
)
    requires
        countable(c, ctx.sizes()),
        h.max_index_set < pow256(ctx.sizes().length as nat),
        h.index_block == Some(block),
        addressable(Some(at), ctx.sizes()),
        addressable(Some(block), ctx.sizes()),
        h.element_size > 0,
        pow2(k) <= h.data_block_min_elements < pow2(k + 1),
        k <= h.max_nelmts_bits,
        all_fit(inline, h, ctx.sizes()),
        inline.len() == if h.max_index_set < h.index_block_elements {
            h.max_index_set as int
        } else {
            h.index_block_elements as int
        },
        unused.len() == (h.index_block_elements - inline.len()) * h.element_size,
        more.len() == (1 + h.max_nelmts_bits - k) * ctx.sizes().offset,
        first.stands(ctx, h, at, h.data_block_min_elements as nat),
        second.stands(ctx, h, at, 2 * h.data_block_min_elements as nat),
        inline.len() + first.elements.len() + second.elements.len() == h.max_index_set,
        inline.len() + first.elements.len() < h.max_index_set ==> first.elements.len()
            == h.data_block_min_elements,
        stands_at(ctx, at, extensible_header_written(h, c, pages, pointers, ctx.sizes())),
        stands_at(
            ctx,
            block,
            index_block_written(
                h,
                at,
                inline,
                unused,
                first.address,
                second.address,
                more,
                ctx.sizes(),
            ),
        ),
    ensures
        extensible_array(ctx, at) == std::result::Result::<Seq<Element>, ErrorView>::Ok(
            inline + first.elements + second.elements,
        ),
{
    let sizes = ctx.sizes();
    lemma_extensible_header(h, c, pages, pointers, sizes);
    lemma_stands(ctx, at, extensible_header_written(h, c, pages, pointers, sizes));
    lemma_index_block(h, at, inline, unused, first.address, second.address, more, sizes);
    let b = index_block_written(
        h,
        at,
        inline,
        unused,
        first.address,
        second.address,
        more,
        sizes,
    );
    lemma_stands(ctx, block, b);
    a_logarithm_is_rounded_down(h.data_block_min_elements as nat, k);
    vstd::arithmetic::power2::lemma_pow2_pos(k);
    let (x, y, z) = (
        2int,
        (1 + h.max_nelmts_bits - k) as int,
        sizes.offset as int,
    );
    assert((x + y) * z == x * z + y * z) by (nonlinear_arith);
    assert(b.len() == h.index_len(sizes));
    reveal_with_fuel(crate::chunk_index::block_capacity, 2);
    let mid = inline + first.elements;
    if inline.len() < h.max_index_set {
        lemma_part(ctx, h, at, first, 0, h.data_block_min_elements as nat, inline);
        lemma_part(ctx, h, at, second, 1, 2 * h.data_block_min_elements as nat, mid);
    } else {
        assert(inline + first.elements + second.elements =~= inline);
    }
}

// ── records of a tree ──────────────────────────────────────────────────────

/// The coordinates of a chunk in the grid, each in eight bytes.
pub open spec fn coordinates_written(at: Seq<u64>) -> Seq<u8>
    decreases at.len(),
{
    if at.len() == 0 {
        Seq::empty()
    } else {
        le(at[0] as nat, 8) + coordinates_written(at.skip(1))
    }
}

/// The record of a chunk in a version 2 B-tree. One that went through filters carries
/// its size, `width` bytes wide, and the filters it left out.
pub open spec fn tree_record_written(
    chunk: u64,
    filtered: bool,
    size: u32,
    width: nat,
    mask: u32,
    at: Seq<u64>,
    sizes: Sizes,
) -> Seq<u8> {
    if filtered {
        address(Some(chunk), sizes) + (le(size as nat, width) + (le(mask as nat, 4)
            + coordinates_written(at)))
    } else {
        address(Some(chunk), sizes) + coordinates_written(at)
    }
}

proof fn lemma_coordinates(
    b: Seq<u8>,
    p: int,
    axis: nat,
    at: Seq<u64>,
    dims: Seq<u64>,
    out: Seq<u64>,
)
    requires
        axis <= at.len(),
        at.len() == dims.len(),
        forall|a: int| 0 <= a < at.len() ==> #[trigger] at[a] * dims[a] <= u64::MAX,
        holds(b, p, coordinates_written(at.skip(axis as int))),
    ensures
        scaled_offsets_at(b, p, axis, at.len(), dims, out) == Parse::<Seq<u64>>::Ok(
            (
                out + Seq::new(
                    (at.len() - axis) as nat,
                    |a: int| (at[axis + a] * dims[axis + a]) as u64,
                ),
                p + 8 * (at.len() - axis),
            ),
        ),
        coordinates_written(at.skip(axis as int)).len() == 8 * (at.len() - axis),
    decreases at.len() - axis,
{
    let left = at.skip(axis as int);
    let want = out + Seq::new(
        (at.len() - axis) as nat,
        |a: int| (at[axis + a] * dims[axis + a]) as u64,
    );
    if axis < at.len() {
        assert(left[0] == at[axis as int]);
        assert(left.skip(1) =~= at.skip(axis as int + 1));
        let x = le(left[0] as nat, 8);
        lemma_le_len(left[0] as nat, 8);
        lemma_holds_both(b, p, x, coordinates_written(left.skip(1)));
        lemma_holds_u64(b, p, left[0] as nat);
        assert(at[axis as int] * dims[axis as int] <= u64::MAX);
        let more = out.push((at[axis as int] * dims[axis as int]) as u64);
        lemma_coordinates(b, p + 8, axis + 1, at, dims, more);
        assert(more + Seq::new(
            (at.len() - (axis + 1)) as nat,
            |a: int| (at[axis + 1 + a] * dims[axis + 1 + a]) as u64,
        ) =~= want);
    } else {
        assert(want =~= out);
    }
}

/// A record of a version 2 B-tree names a chunk: where its bytes are, how many they are
/// and which filters they left out, and its coordinates in the grid, from which its
/// offset follows.
pub proof fn a_tree_record_names_its_chunk(
    chunk: u64,
    filtered: bool,
    size: u32,
    width: nat,
    mask: u32,
    at: Seq<u64>,
    dims: Seq<u64>,
    sizes: Sizes,
)
    requires
        addressable(Some(chunk), sizes),
        filtered ==> width < 8 && size < pow256(width),
        at.len() == dims.len(),
        forall|a: int| 0 <= a < at.len() ==> #[trigger] at[a] * dims[a] <= u64::MAX,
    ensures
        ({
            let b = tree_record_written(chunk, filtered, size, width, mask, at, sizes);
            chunk_of_record(
                b,
                record_shape(b.len(), sizes.offset, filtered),
                dims,
                filtered,
                sizes,
            ) matches Ok(r) && {
                &&& record_shape(b.len(), sizes.offset, filtered).stored_dims == dims.len()
                &&& r.address == chunk
                &&& r.offset.len() == dims.len()
                &&& forall|a: int| 0 <= a < dims.len() ==> #[trigger] r.offset[a] == at[a] * dims[a]
                &&& filtered ==> r.size == size && r.filter_mask == mask
                &&& !filtered ==> r.size == 0 && r.filter_mask == 0
            }
        }),
{
    let b = tree_record_written(chunk, filtered, size, width, mask, at, sizes);
    let head = address(Some(chunk), sizes);
    let tail = coordinates_written(at);
    let o = sizes.offset as int;
    assert(b.subrange(0, b.len() as int) =~= b);
    assert(holds(b, 0, b));
    assert(at.skip(0) =~= at);
    if filtered {
        let (s, m) = (le(size as nat, width), le(mask as nat, 4));
        lemma_le_len(size as nat, width);
        lemma_le_len(mask as nat, 4);
        lemma_holds_both(b, 0, head, s + (m + tail));
        lemma_holds_address(b, 0, Some(chunk), sizes);
        lemma_holds_both(b, o, s, m + tail);
        lemma_holds_uint(b, o, size as nat, width as u8);
        lemma_holds_both(b, o + width, m, tail);
        lemma_holds_u32(b, o + width, mask as nat);
        lemma_coordinates(b, o + width + 4, 0, at, dims, Seq::empty());
        assert((width + 8 * at.len()) / 8 == at.len());
    } else {
        lemma_holds_both(b, 0, head, tail);
        lemma_holds_address(b, 0, Some(chunk), sizes);
        lemma_coordinates(b, o, 0, at, dims, Seq::empty());
    }
    assert(address_required_at(b, 0, sizes, "chunk B-tree record"@) == Parse::<u64>::Ok((chunk, o)));
    let shape = record_shape(b.len(), sizes.offset, filtered);
    assert(shape.stored_dims == dims.len());
    let r = chunk_of_record(b, shape, dims, filtered, sizes)->Ok_0;
    assert forall|a: int| 0 <= a < dims.len() implies #[trigger] r.offset[a] == at[a] * dims[a] by {
        assert(at[a] * dims[a] <= u64::MAX);
        assert(at[a] * dims[a] >= 0) by (nonlinear_arith)
            requires
                at[a] >= 0,
                dims[a] >= 0,
        ;
    }
}

proof fn lemma_chunks_of_records(
    records: Seq<Seq<u8>>,
    shape: RecordShape,
    dims: Seq<u64>,
    filtered: bool,
    sizes: Sizes,
    out: Seq<ChunkRecordView>,
    i: int,
)
    requires
        0 <= i < records.len(),
        out.len() <= records.len(),
        forall|j: int|
            0 <= j < out.len() ==> chunk_of_record(records[j], shape, dims, filtered, sizes)
                == std::result::Result::<ChunkRecordView, ErrorView>::Ok(#[trigger] out[j]),
    ensures
        chunks_of_records(records, shape, dims, filtered, sizes, out) matches Ok(all) ==> all.len()
            == records.len() && chunk_of_record(records[i], shape, dims, filtered, sizes)
            == std::result::Result::<ChunkRecordView, ErrorView>::Ok(all[i]),
        (forall|j: int|
            0 <= j < records.len() ==> chunk_of_record(
                #[trigger] records[j],
                shape,
                dims,
                filtered,
                sizes,
            ) is Ok) ==> chunks_of_records(records, shape, dims, filtered, sizes, out) is Ok,
    decreases records.len() - out.len(),
{
    if out.len() < records.len() {
        let n = out.len() as int;
        match chunk_of_record(records[n], shape, dims, filtered, sizes) {
            Ok(r) => {
                lemma_chunks_of_records(
                    records,
                    shape,
                    dims,
                    filtered,
                    sizes,
                    out.push(r),
                    i,
                );
            },
            Err(_) => {},
        }
    }
}

/// A version 2 B-tree index lists the chunk of every record of the tree, in order.
pub proof fn a_tree_index_lists_the_chunk_of_every_record(
    ctx: CtxView,
    at: u64,
    dims: Seq<u64>,
    filtered: bool,
    i: int,
)
    requires
        tree_at(ctx, at) is Ok,
        btree2_chunks(ctx, at, dims, filtered) is Ok,
        0 <= i < tree_at(ctx, at)->Ok_0.records.len(),
    ensures
        ({
            let t = tree_at(ctx, at)->Ok_0;
            let all = btree2_chunks(ctx, at, dims, filtered)->Ok_0;
            &&& all.len() == t.records.len()
            &&& chunk_of_record(
                t.records[i],
                record_shape(t.record_size, ctx.sizes().offset, filtered),
                dims,
                filtered,
                ctx.sizes(),
            ) == std::result::Result::<ChunkRecordView, ErrorView>::Ok(all[i])
        }),
{
    let t = tree_at(ctx, at)->Ok_0;
    let shape = record_shape(t.record_size, ctx.sizes().offset, filtered);
    lemma_chunks_of_records(t.records, shape, dims, filtered, ctx.sizes(), Seq::empty(), i);
}

/// In what a version 4 index lists, a chunk of a tree whose size is not said is a whole
/// one.
pub proof fn a_chunk_without_a_size_is_whole(
    ctx: CtxView,
    index: ChunkIndex,
    at: u64,
    shape: Seq<u64>,
    dims: Seq<u64>,
    full_size: u64,
    total: u64,
    filtered: bool,
    i: int,
)
    requires
        index is BtreeV2,
        btree2_chunks(ctx, at, dims, filtered) is Ok,
        0 <= i < btree2_chunks(ctx, at, dims, filtered)->Ok_0.len(),
    ensures
        ({
            let r = listed_chunks(ctx, index, at, shape, dims, full_size, total, filtered);
            let c = btree2_chunks(ctx, at, dims, filtered)->Ok_0;
            &&& r is Ok
            &&& r->Ok_0.len() == c.len()
            &&& r->Ok_0[i].address == c[i].address
            &&& r->Ok_0[i].offset == c[i].offset
            &&& r->Ok_0[i].filter_mask == c[i].filter_mask
            &&& c[i].size != 0 ==> r->Ok_0[i].size == c[i].size
            &&& c[i].size == 0 ==> r->Ok_0[i].size == full_size as u32
        }),
{
}

/// An array index lists the chunks of its elements.
pub proof fn an_array_index_lists_the_chunks_of_its_elements(
    ctx: CtxView,
    index: ChunkIndex,
    at: u64,
    shape: Seq<u64>,
    dims: Seq<u64>,
    full_size: u64,
    total: u64,
    filtered: bool,
    elements: Seq<Element>,
    i: int,
)
    requires
        (index is FixedArray && fixed_array(ctx, at) == std::result::Result::<
            Seq<Element>,
            ErrorView,
        >::Ok(elements)) || (index is ExtensibleArray && extensible_array(ctx, at)
            == std::result::Result::<Seq<Element>, ErrorView>::Ok(elements)),
        0 <= i < elements.len(),
        elements[i].address is Some,
    ensures
        ({
            let r = listed_chunks(ctx, index, at, shape, dims, full_size, total, filtered);
            let k = written_among(elements, i) as int;
            &&& r is Ok
            &&& r->Ok_0.len() == written_among(elements, elements.len() as int)
            &&& 0 <= k < r->Ok_0.len()
            &&& r->Ok_0[k] == record_of(elements[i], i, grid_of(shape, dims), dims, full_size)
        }),
{
    every_written_element_is_a_chunk(
        elements,
        elements.len(),
        grid_of(shape, dims),
        dims,
        full_size,
        i,
    );
}

} // verus!
