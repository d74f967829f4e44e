//! Which stored byte a read of a dataset gives for each byte of each element.

use vstd::prelude::*;

#[allow(unused_imports)]
use crate::btree1::{in_offset_order, ordered, ChunkRecordView};
#[allow(unused_imports)]
use crate::context::CtxView;
#[allow(unused_imports)]
use crate::dataset::{
    a_chunked_read_gives_every_selected_element, byte_from, chunk_values, chunks_in, filled_bytes,
    first_number, from_chunks, from_compact, from_contiguous, hyperslab_of, in_little_order,
    last_number, lemma_byte_of_element, origin, stored_bytes,
    unwritten_elements_read_as_the_fill_value, written_elements_read_as_written,
};
#[allow(unused_imports)]
use crate::error::ErrorView;
#[allow(unused_imports)]
use crate::filters::decoded;
use crate::index::DatasetIndex;
#[allow(unused_imports)]
use crate::laws::arrays::{
    a_selection_takes_its_elements_row_by_row, elements_stand_row_by_row, extents_multiply,
    place_in, span, steps,
};
#[allow(unused_imports)]
use crate::message::datatype::{widened, ByteOrder, ClassView, DatatypeView};
use crate::message::filter::FilterView;
#[allow(unused_imports)]
use crate::message::layout::LayoutView;
#[allow(unused_imports)]
use crate::overlay::{countable, covers, local, overlaid, place_of};
#[allow(unused_imports)]
use crate::read::{ravel, selected_index, RawDataView, SlabView};
#[allow(unused_imports)]
use crate::shape::product;

verus! {

/// The selection takes the element at `index`.
pub open spec fn takes(slab: SlabView, index: Seq<int>) -> bool {
    &&& slab.start.len() == index.len()
    &&& slab.count.len() == index.len()
    &&& forall|a: int|
        0 <= a < index.len() ==> slab.start[a] <= #[trigger] index[a] < slab.start[a]
            + slab.count[a]
}

/// Where byte `r` of the element at `index` stands in what a read gives.
pub open spec fn byte_place(slab: SlabView, index: Seq<int>, width: nat, r: int) -> int {
    place_in(slab, index) * width + r
}

proof fn lemma_place(slab: SlabView, index: Seq<int>, width: nat, r: int)
    requires
        takes(slab, index),
        0 <= r < width,
    ensures
        ({
            let b = byte_place(slab, index, width, r);
            &&& 0 <= b < product(slab.count) * width
            &&& b / width as int == place_in(slab, index)
            &&& b % width as int == r
            &&& selected_index(slab, b / width as int) == index
            &&& 0 <= place_in(slab, index) < product(slab.count)
        }),
{
    a_selection_takes_its_elements_row_by_row(slab, index);
    extents_multiply(slab.count);
    let k = place_in(slab, index);
    lemma_byte_of_element(k, width, r);
    let total = product(slab.count);
    assert(k * width + r < total * width) by (nonlinear_arith)
        requires
            k + 1 <= total,
            0 <= r < width,
    ;
}

proof fn lemma_from_origin(index: Seq<int>)
    ensures
        local(index, origin(index.len())) == index,
{
    assert(local(index, origin(index.len())) =~= index);
}

proof fn lemma_overlaid_whole(
    out: Seq<u8>,
    slab: SlabView,
    shape: Seq<u64>,
    width: nat,
    first: int,
    data: Seq<u8>,
    index: Seq<int>,
    r: int,
)
    requires
        takes(slab, index),
        slab.within(shape),
        0 <= r < width,
        out.len() == product(slab.count) * width,
    ensures
        overlaid(out, slab, origin(shape.len()), shape, width, first, data)[byte_place(
            slab,
            index,
            width,
            r,
        )] == data[(steps(index, shape, 0) - first) * width + r],
{
    lemma_place(slab, index, width, r);
    lemma_from_origin(index);
    elements_stand_row_by_row(index, shape);
    assert(covers(origin(shape.len()), shape, index)) by {
        assert forall|a: int| 0 <= a < index.len() implies origin(shape.len())[a]
            <= #[trigger] index[a] < origin(shape.len())[a] + shape[a] by {
            assert(slab.start[a] + slab.count[a] <= shape[a]);
        }
    }
}

// ── contiguous and compact storage ─────────────────────────────────────────

proof fn lemma_steps_between(low: Seq<int>, high: Seq<int>, shape: Seq<u64>, a: int)
    requires
        low.len() == shape.len(),
        high.len() == shape.len(),
        0 <= a,
        forall|i: int| 0 <= i < shape.len() ==> #[trigger] low[i] <= high[i],
    ensures
        steps(low, shape, a) <= steps(high, shape, a),
        span(shape, a) >= 0,
    decreases shape.len() - a,
{
    if a < shape.len() {
        lemma_steps_between(low, high, shape, a + 1);
        let s = span(shape, a + 1);
        assert(low[a] <= high[a]);
        assert(low[a] * s <= high[a] * s) by (nonlinear_arith)
            requires
                low[a] <= high[a],
                s >= 0,
        ;
        assert(shape[a] * s >= 0) by (nonlinear_arith)
            requires
                s >= 0,
        ;
    }
}

/// The elements of a selection lie between its first and its last.
proof fn lemma_between(slab: SlabView, shape: Seq<u64>, index: Seq<int>, w: nat)
    requires
        slab.within(shape),
        takes(slab, index),
    ensures
        ({
            let first = first_number(slab, shape);
            let last = last_number(slab, shape);
            let n = steps(index, shape, 0);
            &&& 0 <= first <= n <= last < span(shape, 0)
            &&& 0 <= first * w <= n * w
            &&& n * w + w <= (last + 1) * w <= span(shape, 0) * w
            &&& (last + 1 - first) * w == (last + 1) * w - first * w
            &&& (n - first) * w == n * w - first * w
        }),
{
    let first = first_number(slab, shape);
    let last = last_number(slab, shape);
    let low = crate::read::integers(slab.start);
    let high = Seq::new(slab.start.len(), |a: int| slab.start[a] + slab.count[a] - 1);
    elements_stand_row_by_row(low, shape);
    elements_stand_row_by_row(high, shape);
    assert forall|i: int| 0 <= i < shape.len() implies #[trigger] low[i] <= index[i] by {
        assert(slab.start[i] <= index[i]);
    }
    assert forall|i: int| 0 <= i < shape.len() implies #[trigger] index[i] <= high[i] by {}
    lemma_steps_between(low, index, shape, 0);
    lemma_steps_between(index, high, shape, 0);
    let n = steps(index, shape, 0);
    crate::read::lemma_ravel_nonnegative(low, shape);
    assert(crate::read::inside(high, shape)) by {
        assert forall|a: int| 0 <= a < shape.len() implies 0 <= #[trigger] high[a] < shape[a] by {
            assert(slab.start[a] + slab.count[a] <= shape[a]);
            assert(slab.start[a] <= index[a] < slab.start[a] + slab.count[a]);
        }
    }
    crate::read::every_index_has_an_element(high, shape);
    extents_multiply(shape);
    let total = span(shape, 0);
    assert(0 <= first * w <= n * w && n * w + w <= (last + 1) * w <= total * w) by (nonlinear_arith)
        requires
            0 <= first <= n <= last,
            last + 1 <= total,
            0 <= w,
    ;
    assert((last + 1 - first) * w == (last + 1) * w - first * w) by (nonlinear_arith);
    assert((n - first) * w == n * w - first * w) by (nonlinear_arith);
}

/// Contiguous storage holds the elements row by row from its address on: byte `r` of
/// the element at `index` is the byte of the file that stands as many bytes behind the
/// address as the elements before it take.
pub proof fn a_contiguous_read_gives_the_bytes_of_the_file(
    ctx: CtxView,
    d: DatasetIndex,
    address: u64,
    slab: SlabView,
    index: Seq<int>,
    r: int,
)
    requires
        d.layout@ matches LayoutView::Contiguous { address: Some(a), .. } && a == address,
        slab.within(d.shape@),
        takes(slab, index),
        0 <= r < d.datatype@.size,
        stored_bytes(ctx, d, slab) is Ok,
        ctx.superblock.base_address + address + span(d.shape@, 0) * d.datatype@.size
            <= u64::MAX,
    ensures
        ({
            let w = d.datatype@.size as nat;
            let out = stored_bytes(ctx, d, slab)->Ok_0;
            let b = byte_place(slab, index, w, r);
            let at = ctx.superblock.base_address + address + steps(index, d.shape@, 0) * w + r;
            &&& 0 <= b < out.len()
            &&& 0 <= at < ctx.image.bytes.len()
            &&& out[b] == ctx.image.bytes[at]
        }),
{
    let w = d.datatype@.size as nat;
    let shape = d.shape@;
    let out = filled_bytes(d.fill_value@, w, product(slab.count) * w);
    lemma_place(slab, index, w, r);
    lemma_between(slab, shape, index, w);
    let first = first_number(slab, shape);
    let last = last_number(slab, shape);
    let n = steps(index, shape, 0);
    let (fw, nw, len) = (first * w, n * w, (last + 1 - first) * w);
    let base = ctx.superblock.base_address as int;
    assert((address + fw) % 0x1_0000_0000_0000_0000 == address + fw);
    let at = (address + fw) as u64;
    assert(stored_bytes(ctx, d, slab) == from_contiguous(ctx, address, shape, w, slab, out));
    let data = ctx.fetch(at, len)->Ok_0;
    assert(ctx.superblock.resolved(at) == base + address + fw);
    lemma_overlaid_whole(out, slab, shape, w, first, data, index, r);
    assert(data[nw - fw + r] == ctx.image.bytes[base + address + nw + r]);
}

/// Compact storage holds the elements row by row.
pub proof fn a_compact_read_gives_the_stored_bytes(
    ctx: CtxView,
    d: DatasetIndex,
    data: Seq<u8>,
    slab: SlabView,
    index: Seq<int>,
    r: int,
)
    requires
        d.layout@ == (LayoutView::Compact { data }),
        slab.within(d.shape@),
        takes(slab, index),
        0 <= r < d.datatype@.size,
        data.len() >= span(d.shape@, 0) * d.datatype@.size,
    ensures
        ({
            let w = d.datatype@.size as nat;
            let b = byte_place(slab, index, w, r);
            &&& stored_bytes(ctx, d, slab) is Ok
            &&& 0 <= b < stored_bytes(ctx, d, slab)->Ok_0.len()
            &&& stored_bytes(ctx, d, slab)->Ok_0[b] == data[steps(index, d.shape@, 0) * w + r]
        }),
{
    let w = d.datatype@.size as nat;
    let out = filled_bytes(d.fill_value@, w, product(slab.count) * w);
    lemma_place(slab, index, w, r);
    extents_multiply(d.shape@);
    lemma_overlaid_whole(out, slab, d.shape@, w, 0, data, index, r);
}

// ── the fill value ─────────────────────────────────────────────────────────

/// Byte `r` of an element that was never written.
pub open spec fn fill_of(d: DatasetIndex, r: int) -> u8 {
    match d.fill_value@ {
        Some(bytes) => if bytes.len() == d.datatype@.size {
            bytes[r]
        } else {
            0
        },
        None => 0,
    }
}

proof fn lemma_fill(d: DatasetIndex, r: int)
    requires
        0 <= r < d.datatype@.size,
    ensures
        crate::message::fillvalue::fill_byte(d.fill_value@, d.datatype@.size as nat, r) == fill_of(
            d,
            r,
        ),
{
    vstd::arithmetic::div_mod::lemma_small_mod(r as nat, d.datatype@.size as nat);
}

/// A dataset that was given no storage reads as its fill value, or as zero where it has
/// none of the width of an element.
pub proof fn unallocated_storage_reads_as_the_fill_value(
    ctx: CtxView,
    d: DatasetIndex,
    slab: SlabView,
    index: Seq<int>,
    r: int,
)
    requires
        d.layout@ matches LayoutView::Contiguous { address: None, .. },
        takes(slab, index),
        0 <= r < d.datatype@.size,
    ensures
        stored_bytes(ctx, d, slab) is Ok,
        0 <= byte_place(slab, index, d.datatype@.size as nat, r) < stored_bytes(
            ctx,
            d,
            slab,
        )->Ok_0.len(),
        stored_bytes(ctx, d, slab)->Ok_0[byte_place(slab, index, d.datatype@.size as nat, r)]
            == fill_of(d, r),
{
    let w = d.datatype@.size as nat;
    lemma_place(slab, index, w, r);
    vstd::arithmetic::div_mod::lemma_small_mod(r as nat, w);
}

// ── chunked storage ────────────────────────────────────────────────────────

/// The element at `index` belongs to the chunk at `offset`.
pub open spec fn in_chunk(offset: Seq<u64>, dims: Seq<u64>, index: Seq<int>) -> bool {
    &&& offset.len() == index.len()
    &&& dims.len() == index.len()
    &&& forall|a: int|
        0 <= a < index.len() ==> offset[a] <= #[trigger] index[a] < offset[a] + dims[a]
}

/// The coordinates of an element within its chunk.
pub open spec fn within_chunk(offset: Seq<u64>, index: Seq<int>) -> Seq<int> {
    Seq::new(index.len(), |a: int| index[a] - offset[a])
}

/// The bytes of a chunk as they stand in the file.
pub open spec fn raw_chunk(ctx: CtxView, record: ChunkRecordView) -> Seq<u8> {
    let at = ctx.superblock.base_address + record.address;
    ctx.image.bytes.subrange(at, at + record.size)
}

/// An element that a chunk covers reads as what the chunk's bytes, once its filters are
/// undone, hold at its place: the elements of a chunk stand row by row.
pub proof fn a_written_element_reads_as_its_chunk_holds_it(
    ctx: CtxView,
    d: DatasetIndex,
    slab: SlabView,
    records: Seq<ChunkRecordView>,
    dims: Seq<u64>,
    i: int,
    index: Seq<int>,
    r: int,
)
    requires
        d.layout@ is Chunked,
        dims == widened(d.layout@->chunk_dims),
        chunks_in(
            ctx,
            d.layout@->Chunked_address,
            d.layout@->index,
            d.shape@,
            dims,
            d.datatype@.size as nat,
            d.pipeline@.len() > 0,
        ) == std::result::Result::<Seq<ChunkRecordView>, ErrorView>::Ok(records),
        slab.within(d.shape@),
        takes(slab, index),
        0 <= r < d.datatype@.size,
        0 <= i < records.len(),
        in_chunk(records[i].offset, dims, index),
        forall|j: int|
            i < j < records.len() ==> !in_chunk((#[trigger] records[j]).offset, dims, index),
        ctx.superblock.base_address + records[i].address <= u64::MAX,
        stored_bytes(ctx, d, slab) is Ok,
    ensures
        ({
            let w = d.datatype@.size as nat;
            let out = stored_bytes(ctx, d, slab)->Ok_0;
            let b = byte_place(slab, index, w, r);
            let values = decoded(
                d.pipeline@,
                records[i].filter_mask,
                raw_chunk(ctx, records[i]),
            );
            &&& 0 <= b < out.len()
            &&& values is Ok
            &&& out[b] == values->Ok_0[steps(within_chunk(records[i].offset, index), dims, 0) * w
                + r]
        }),
{
    let w = d.datatype@.size as nat;
    lemma_place(slab, index, w, r);
    let k = place_in(slab, index);
    assert(countable(slab)) by {
        assert forall|a: int| 0 <= a < slab.start.len() implies #[trigger] slab.start[a]
            + slab.count[a] <= u64::MAX by {
            assert(slab.start[a] + slab.count[a] <= d.shape@[a]);
        }
    }
    a_chunked_read_gives_every_selected_element(
        ctx,
        d.pipeline@,
        dims,
        w,
        slab,
        records,
        d.fill_value@,
        k,
        r,
    );
    assert(covers(records[i].offset, dims, index));
    assert forall|j: int| i < j < records.len() implies !covers(
        (#[trigger] records[j]).offset,
        dims,
        index,
    ) by {
        assert(!in_chunk(records[j].offset, dims, index));
        if covers(records[j].offset, dims, index) {
            assert(in_chunk(records[j].offset, dims, index));
        }
    }
    let out = filled_bytes(d.fill_value@, w, product(slab.count) * w);
    lemma_chunk_was_read(ctx, d.pipeline@, dims, w, slab, records, 0, out, i, index);
    written_elements_read_as_written(
        ctx,
        d.pipeline@,
        dims,
        w,
        records,
        0,
        i,
        index,
        r,
        crate::message::fillvalue::fill_byte(d.fill_value@, w, r),
    );
    assert(local(index, records[i].offset) =~= within_chunk(records[i].offset, index));
    elements_stand_row_by_row(within_chunk(records[i].offset, index), dims);
    assert(ctx.superblock.resolved(records[i].address) == ctx.superblock.base_address
        + records[i].address);
    lemma_len_kept(ctx, d.pipeline@, dims, w, slab, records, 0, out);
}

proof fn lemma_chunk_was_read(
    ctx: CtxView,
    filters: Seq<FilterView>,
    dims: Seq<u64>,
    width: nat,
    slab: SlabView,
    records: Seq<ChunkRecordView>,
    n: int,
    out: Seq<u8>,
    i: int,
    index: Seq<int>,
)
    requires
        0 <= n <= i < records.len(),
        takes(slab, index),
        covers(records[i].offset, dims, index),
        from_chunks(ctx, filters, dims, width, slab, records, n, out) is Ok,
    ensures
        chunk_values(ctx, filters, records[i], product(dims) * width) is Ok,
    decreases i - n,
{
    if n == i {
        let o = records[i].offset;
        assert(crate::overlay::meets(slab, o, dims)) by {
            assert forall|a: int| 0 <= a < slab.start.len() implies #[trigger]
            crate::overlay::overlap_start(slab, o, a) < crate::overlay::overlap_end(
                slab,
                o,
                dims,
                a,
            ) by {
                assert(slab.start[a] <= index[a] < slab.start[a] + slab.count[a]);
                assert(o[a] <= index[a] < o[a] + dims[a]);
            }
        }
    } else if !crate::overlay::meets(slab, records[n].offset, dims) {
        lemma_chunk_was_read(ctx, filters, dims, width, slab, records, n + 1, out, i, index);
    } else {
        let data = chunk_values(ctx, filters, records[n], product(dims) * width)->Ok_0;
        let next = overlaid(out, slab, records[n].offset, dims, width, 0, data);
        lemma_chunk_was_read(ctx, filters, dims, width, slab, records, n + 1, next, i, index);
    }
}

/// An element that no chunk covers reads as the fill value.
pub proof fn an_unwritten_element_reads_as_the_fill_value(
    ctx: CtxView,
    d: DatasetIndex,
    slab: SlabView,
    records: Seq<ChunkRecordView>,
    dims: Seq<u64>,
    index: Seq<int>,
    r: int,
)
    requires
        d.layout@ is Chunked,
        dims == widened(d.layout@->chunk_dims),
        chunks_in(
            ctx,
            d.layout@->Chunked_address,
            d.layout@->index,
            d.shape@,
            dims,
            d.datatype@.size as nat,
            d.pipeline@.len() > 0,
        ) == std::result::Result::<Seq<ChunkRecordView>, ErrorView>::Ok(records),
        slab.within(d.shape@),
        takes(slab, index),
        0 <= r < d.datatype@.size,
        forall|j: int|
            0 <= j < records.len() ==> !in_chunk((#[trigger] records[j]).offset, dims, index),
        stored_bytes(ctx, d, slab) is Ok,
    ensures
        0 <= byte_place(slab, index, d.datatype@.size as nat, r) < stored_bytes(
            ctx,
            d,
            slab,
        )->Ok_0.len(),
        stored_bytes(ctx, d, slab)->Ok_0[byte_place(slab, index, d.datatype@.size as nat, r)]
            == fill_of(d, r),
{
    let w = d.datatype@.size as nat;
    lemma_place(slab, index, w, r);
    let k = place_in(slab, index);
    assert(countable(slab)) by {
        assert forall|a: int| 0 <= a < slab.start.len() implies #[trigger] slab.start[a]
            + slab.count[a] <= u64::MAX by {
            assert(slab.start[a] + slab.count[a] <= d.shape@[a]);
        }
    }
    a_chunked_read_gives_every_selected_element(
        ctx,
        d.pipeline@,
        dims,
        w,
        slab,
        records,
        d.fill_value@,
        k,
        r,
    );
    assert forall|j: int| 0 <= j < records.len() implies !covers(
        (#[trigger] records[j]).offset,
        dims,
        index,
    ) by {
        assert(!in_chunk(records[j].offset, dims, index));
        if covers(records[j].offset, dims, index) {
            assert(in_chunk(records[j].offset, dims, index));
        }
    }
    unwritten_elements_read_as_the_fill_value(
        ctx,
        d.pipeline@,
        dims,
        w,
        records,
        0,
        index,
        r,
        crate::message::fillvalue::fill_byte(d.fill_value@, w, r),
    );
    lemma_fill(d, r);
    let out = filled_bytes(d.fill_value@, w, product(slab.count) * w);
    lemma_len_kept(ctx, d.pipeline@, dims, w, slab, records, 0, out);
}

proof fn lemma_len_kept(
    ctx: CtxView,
    filters: Seq<FilterView>,
    dims: Seq<u64>,
    width: nat,
    slab: SlabView,
    records: Seq<ChunkRecordView>,
    n: int,
    out: Seq<u8>,
)
    requires
        0 <= n,
    ensures
        from_chunks(ctx, filters, dims, width, slab, records, n, out) matches Ok(r) ==> r.len()
            == out.len(),
    decreases records.len() - n,
{
    if n < records.len() {
        if !crate::overlay::meets(slab, records[n].offset, dims) {
            lemma_len_kept(ctx, filters, dims, width, slab, records, n + 1, out);
        } else {
            match chunk_values(ctx, filters, records[n], product(dims) * width) {
                Ok(data) => {
                    let next = overlaid(out, slab, records[n].offset, dims, width, 0, data);
                    lemma_len_kept(ctx, filters, dims, width, slab, records, n + 1, next);
                },
                Err(_) => {},
            }
        }
    }
}

// ── byte order ─────────────────────────────────────────────────────────────

/// The numbers of the type are stored with the most significant byte first.
pub open spec fn is_big(d: DatatypeView) -> bool {
    match d.class {
        ClassView::FixedPoint { order, .. } => order is Big,
        ClassView::FloatingPoint { order, .. } => order is Big,
        _ => false,
    }
}

/// A read hands out numbers with the least significant byte first, whatever order they
/// are stored in, and everything else as it is stored.
pub proof fn a_read_hands_out_the_least_significant_byte_first(
    ctx: CtxView,
    d: DatasetIndex,
    slab: SlabView,
    k: int,
    r: int,
)
    requires
        hyperslab_of(ctx, d, slab) is Ok,
        0 <= k < span(slab.count, 0),
        0 <= r < d.datatype@.size,
    ensures
        ({
            let w = d.datatype@.size as nat;
            let raw = hyperslab_of(ctx, d, slab)->Ok_0;
            let stored = stored_bytes(ctx, d, slab)->Ok_0;
            &&& stored_bytes(ctx, d, slab) is Ok
            &&& raw.element_size == w
            &&& raw.shape == slab.count
            &&& raw.bytes.len() == stored.len()
            &&& 0 <= k * w + r < stored.len() ==> raw.bytes[k * w + r] == if is_big(d.datatype@) {
                stored[k * w + (w - 1 - r)]
            } else {
                stored[k * w + r]
            }
        }),
{
    let w = d.datatype@.size as nat;
    lemma_byte_of_element(k, w, r);
}

} // verus!
