//! Reading the values of a dataset.
//!
//! A read starts from the fill value and lays the stored values over it. What
//! was never written therefore reads as the fill value, whether it is a chunk
//! or a whole dataset.

#[allow(unused_imports)]
use vstd::arithmetic::div_mod::{
    lemma_fundamental_div_mod, lemma_fundamental_div_mod_converse, lemma_mod_multiples_basic,
    lemma_mod_bound, lemma_small_mod, lemma_add_mod_noop,
};
use vstd::prelude::*;
use vstd::slice::slice_to_vec;

#[allow(unused_imports)]
use crate::btree1::{
    chunk_walk, in_offset_order, lemma_ordered, node_reads, offsets, ordered, ChunkRecordView,
};
use crate::btree1::{read_chunk_index, sort_records, ChunkRecord};
use crate::bytes::reverse_elements;
#[allow(unused_imports)]
use crate::bytes::reversed_elements;
#[allow(unused_imports)]
use crate::chunk_index::{index_reads, indexed_chunks};
#[allow(unused_imports)]
use crate::cursor::value_of;
use crate::context::Ctx;
#[allow(unused_imports)]
use crate::context::CtxView;
use crate::dtype::DType;
#[allow(unused_imports)]
use crate::dtype::{dtype_name, dtype_of};
use crate::error::{Error, Result};
#[allow(unused_imports)]
use crate::error::{seen, ErrorView};
use crate::filters::decode_chunk;
#[allow(unused_imports)]
use crate::filters::decoded;
use crate::heap::{resolve_vlen_sequences_of, resolve_vlen_strings_of};
#[allow(unused_imports)]
use crate::heap::{
    descriptor_at, descriptor_len, follows, sequence_of, sequences_from, strings_from,
};
use crate::index::DatasetIndex;
use crate::message::datatype::{ByteOrder, Datatype, DatatypeClass, VlenKind};
#[allow(unused_imports)]
use crate::message::datatype::{widened, ClassView, DatatypeView};
#[allow(unused_imports)]
use crate::message::fillvalue::fill_byte;
#[allow(unused_imports)]
use crate::message::filter::FilterView;
use crate::message::filter::FilterPipeline;
use crate::message::layout::{ChunkIndex, Layout};
#[allow(unused_imports)]
use crate::message::layout::LayoutView;
use crate::overlay::{overlay, touches};
#[allow(unused_imports)]
use crate::overlay::{
    countable, covers, holds, lemma_overlap, lemma_selected, lemma_selects, local, meets, overlaid,
    overlap_end, overlap_start,
};
#[allow(unused_imports)]
use crate::ranking::is_ranking;
use crate::read::{number_of, Hyperslab, RawData};
#[allow(unused_imports)]
use crate::read::{
    checked_selections_lie_within, every_index_has_an_element, integers, ravel, selected_index,
    the_whole_array_can_be_selected, whole_of, RawDataView, SlabView,
};
use crate::shape::checked_product;
#[allow(unused_imports)]
use crate::shape::{lemma_product_monotonic, lemma_product_zero, product};
#[allow(unused_imports)]
use crate::source::agrees;
use crate::source::ByteSource;
#[allow(unused_imports)]
use crate::views::views;

verus! {

broadcast use crate::views::group_views;

/// `len` bytes of nothing but the fill value.
pub open spec fn filled_bytes(fill: Option<Seq<u8>>, width: nat, len: nat) -> Seq<u8> {
    Seq::new(len, |i: int| fill_byte(fill, width, i))
}

/// An offset of zero along each axis.
pub open spec fn origin(rank: nat) -> Seq<u64> {
    Seq::new(rank, |a: int| 0u64)
}

/// The number of the first element that a selection takes of an array.
pub open spec fn first_number(slab: SlabView, shape: Seq<u64>) -> int {
    ravel(integers(slab.start), shape)
}

/// The number of the last element that a selection takes of an array.
pub open spec fn last_number(slab: SlabView, shape: Seq<u64>) -> int {
    ravel(Seq::new(slab.start.len(), |a: int| slab.start[a] + slab.count[a] - 1), shape)
}

/// A selection of a dataset whose values stand in its object header.
pub open spec fn from_compact(
    data: Seq<u8>,
    shape: Seq<u64>,
    width: nat,
    slab: SlabView,
    out: Seq<u8>,
) -> std::result::Result<Seq<u8>, ErrorView> {
    if data.len() < product(shape) * width {
        Err(ErrorView::Malformed("compact storage is shorter than its dataset"@))
    } else {
        Ok(overlaid(out, slab, origin(shape.len()), shape, width, 0, data))
    }
}

/// A selection of a dataset whose values stand in one run at `address`. Only the
/// bytes from its first element to its last are read.
pub open spec fn from_contiguous(
    ctx: CtxView,
    address: u64,
    shape: Seq<u64>,
    width: nat,
    slab: SlabView,
    out: Seq<u8>,
) -> std::result::Result<Seq<u8>, ErrorView> {
    let first = first_number(slab, shape);
    let last = last_number(slab, shape);
    if (last + 1) * width > u64::MAX {
        Err(ErrorView::Malformed("dataset storage past what 64 bits can address"@))
    } else {
        let at = (address + first * width) % 0x1_0000_0000_0000_0000;
        match ctx.fetch(at as u64, (last + 1 - first) * width) {
            Err(e) => Err(e),
            Ok(data) => Ok(overlaid(out, slab, origin(shape.len()), shape, width, first, data)),
        }
    }
}

/// The values of a chunk, which decode to at least `want` bytes.
pub open spec fn chunk_values(
    ctx: CtxView,
    filters: Seq<FilterView>,
    record: ChunkRecordView,
    want: nat,
) -> std::result::Result<Seq<u8>, ErrorView> {
    match ctx.fetch(record.address, record.size as int) {
        Err(e) => Err(e),
        Ok(raw) => match decoded(filters, record.filter_mask, raw) {
            Err(e) => Err(e),
            Ok(data) => if data.len() < want {
                Err(ErrorView::Malformed("chunk decodes to fewer bytes than its shape takes"@))
            } else {
                Ok(data)
            },
        },
    }
}

/// A selection with the chunks from number `i` on laid over it. A chunk that
/// holds nothing of the selection is not read.
pub open spec fn from_chunks(
    ctx: CtxView,
    filters: Seq<FilterView>,
    dims: Seq<u64>,
    width: nat,
    slab: SlabView,
    records: Seq<ChunkRecordView>,
    i: int,
    out: Seq<u8>,
) -> std::result::Result<Seq<u8>, ErrorView>
    decreases records.len() - i,
{
    if i >= records.len() {
        Ok(out)
    } else if !meets(slab, records[i].offset, dims) {
        from_chunks(ctx, filters, dims, width, slab, records, i + 1, out)
    } else {
        match chunk_values(ctx, filters, records[i], product(dims) * width) {
            Err(e) => Err(e),
            Ok(data) => from_chunks(
                ctx,
                filters,
                dims,
                width,
                slab,
                records,
                i + 1,
                overlaid(out, slab, records[i].offset, dims, width, 0, data),
            ),
        }
    }
}

/// The chunks that a dataset stores, in the order of their offsets. Without an
/// index there are none.
pub open spec fn chunks_in(
    ctx: CtxView,
    address: Option<u64>,
    index: ChunkIndex,
    shape: Seq<u64>,
    dims: Seq<u64>,
    width: nat,
    filtered: bool,
) -> std::result::Result<Seq<ChunkRecordView>, ErrorView> {
    if dims.len() != shape.len() {
        Err(ErrorView::Malformed("chunk shape does not have the rank of its dataset"@))
    } else {
        let found = match (index, address) {
            (ChunkIndex::BtreeV1, None) => Ok(Seq::empty()),
            (ChunkIndex::BtreeV1, Some(a)) => chunk_walk(
                ctx,
                shape.len(),
                seq![a],
                Set::empty(),
                0,
                Seq::empty(),
            ),
            _ => indexed_chunks(ctx, index, address, shape, dims, width, filtered),
        };
        match found {
            Err(e) => Err(e),
            Ok(records) => Ok(ordered(records)),
        }
    }
}

/// Whether finding the chunks that a dataset stores reads anything.
pub open spec fn chunks_read(
    ctx: CtxView,
    address: Option<u64>,
    index: ChunkIndex,
    shape: Seq<u64>,
    dims: Seq<u64>,
    width: nat,
) -> bool {
    dims.len() == shape.len() && match (index, address) {
        (ChunkIndex::BtreeV1, None) => false,
        (ChunkIndex::BtreeV1, Some(a)) => node_reads(ctx, a),
        _ => index_reads(ctx, index, address, shape, dims, width),
    }
}

/// Whether laying the chunks from number `i` on over a selection reads anything: the
/// first that holds something of the selection decides.
pub open spec fn chunk_bytes_read(
    ctx: CtxView,
    dims: Seq<u64>,
    slab: SlabView,
    records: Seq<ChunkRecordView>,
    i: int,
) -> bool
    decreases records.len() - i,
{
    i < records.len() && if meets(slab, records[i].offset, dims) {
        ctx.fetch(records[i].address, records[i].size as int) is Ok
    } else {
        chunk_bytes_read(ctx, dims, slab, records, i + 1)
    }
}

/// Whether a selection of a dataset in one run at `address` reads anything.
pub open spec fn run_reads(
    ctx: CtxView,
    address: u64,
    shape: Seq<u64>,
    width: nat,
    slab: SlabView,
) -> bool {
    let first = first_number(slab, shape);
    let last = last_number(slab, shape);
    (last + 1) * width <= u64::MAX && ctx.fetch(
        ((address + first * width) % 0x1_0000_0000_0000_0000) as u64,
        (last + 1 - first) * width,
    ) is Ok
}

/// Whether what a dataset stores of a selection is read: it stands outside the
/// object header and inside the file.
pub open spec fn storage_reads(ctx: CtxView, d: DatasetIndex, slab: SlabView) -> bool {
    let width = d.datatype@.size as nat;
    product(slab.count) * width > 0 && match d.layout@ {
        LayoutView::Compact { .. } => false,
        LayoutView::Contiguous { address: None, .. } => false,
        LayoutView::Contiguous { address: Some(a), .. } => run_reads(
            ctx,
            a,
            d.shape@,
            width,
            slab,
        ),
        LayoutView::Chunked { address, chunk_dims, index, .. } => {
            let dims = widened(chunk_dims);
            let filtered = d.pipeline@.len() > 0;
            chunks_read(ctx, address, index, d.shape@, dims, width) || match chunks_in(
                ctx,
                address,
                index,
                d.shape@,
                dims,
                width,
                filtered,
            ) {
                Err(_) => false,
                Ok(records) => chunk_bytes_read(ctx, dims, slab, records, 0),
            }
        },
    }
}

/// Whether reading a selection of a dataset reads anything. A selection that does
/// not fit the dataset, or memory, is refused before.
pub open spec fn hyperslab_reads(ctx: CtxView, d: DatasetIndex, slab: SlabView) -> bool {
    &&& slab.checked(d.shape@) is Ok
    &&& product(slab.count) * d.datatype@.size <= usize::MAX
    &&& storage_reads(ctx, d, slab)
}

/// A selection of a dataset as its storage holds it, in the file's byte order.
pub open spec fn stored_bytes(ctx: CtxView, d: DatasetIndex, slab: SlabView) -> std::result::Result<
    Seq<u8>,
    ErrorView,
> {
    let width = d.datatype@.size as nat;
    let out = filled_bytes(d.fill_value@, width, product(slab.count) * width);
    if out.len() == 0 {
        Ok(out)
    } else {
        match d.layout@ {
            LayoutView::Compact { data } => from_compact(data, d.shape@, width, slab, out),
            LayoutView::Contiguous { address: None, .. } => Ok(out),
            LayoutView::Contiguous { address: Some(a), .. } => from_contiguous(
                ctx,
                a,
                d.shape@,
                width,
                slab,
                out,
            ),
            LayoutView::Chunked { address, chunk_dims, index, .. } => match chunks_in(
                ctx,
                address,
                index,
                d.shape@,
                widened(chunk_dims),
                width,
                d.pipeline@.len() > 0,
            ) {
                Err(e) => Err(e),
                Ok(records) => from_chunks(
                    ctx,
                    d.pipeline@,
                    widened(chunk_dims),
                    width,
                    slab,
                    records,
                    0,
                    out,
                ),
            },
        }
    }
}

/// Values of a type with the least significant byte first. Only numbers have a
/// byte order.
pub open spec fn in_little_order(d: DatatypeView, bytes: Seq<u8>) -> Seq<u8> {
    match d.class {
        ClassView::FixedPoint { order: ByteOrder::Big, .. } => reversed_elements(
            bytes,
            d.size as nat,
        ),
        ClassView::FloatingPoint { order: ByteOrder::Big, .. } => reversed_elements(
            bytes,
            d.size as nat,
        ),
        _ => bytes,
    }
}

/// What a selection of a dataset holds.
pub open spec fn hyperslab_of(ctx: CtxView, d: DatasetIndex, slab: SlabView) -> std::result::Result<
    RawDataView,
    ErrorView,
> {
    match slab.checked(d.shape@) {
        Err(e) => Err(e),
        Ok(_) => if product(slab.count) * d.datatype@.size > usize::MAX {
            Err(ErrorView::BadRequest("selection is too large"@))
        } else {
            match stored_bytes(ctx, d, slab) {
                Err(e) => Err(e),
                Ok(bytes) => Ok(
                    RawDataView {
                        bytes: in_little_order(d.datatype@, bytes),
                        element_size: d.datatype@.size as nat,
                        shape: slab.count,
                    },
                ),
            }
        },
    }
}

/// Each extent, as a 64-bit number.
pub fn widen(dims: &Vec<u32>) -> (r: Vec<u64>)
    ensures
        r@ == widened(dims@),
{
    let mut out: Vec<u64> = Vec::new();
    while out.len() < dims.len()
        invariant
            out@.len() <= dims@.len(),
            forall|i: int| 0 <= i < out@.len() ==> out@[i] == dims@[i] as u64,
        decreases dims@.len() - out@.len(),
    {
        out.push(dims[out.len()] as u64);
    }
    assert(out@ =~= widened(dims@));
    out
}

/// The records of a chunk index, as a result that can be compared.
pub open spec fn seen_records(r: Result<Vec<ChunkRecord>>) -> std::result::Result<
    Seq<ChunkRecordView>,
    ErrorView,
> {
    match r {
        Ok(v) => Ok(views(v@)),
        Err(e) => Err(e@),
    }
}

/// The chunks that a dataset stores, in the order of their offsets.
pub fn chunk_records<S: ByteSource + ?Sized>(
    ctx: Ctx<'_, S>,
    address: Option<u64>,
    index: &ChunkIndex,
    shape: &[u64],
    dims: &[u64],
    width: usize,
    filtered: bool,
) -> (r: Result<Vec<ChunkRecord>>)
    ensures
        agrees(
            seen_records(r),
            chunks_in(ctx@, address, *index, shape@, dims@, width as nat, filtered),
            ctx.dependable() || !chunks_read(ctx@, address, *index, shape@, dims@, width as nat),
        ),
{
    if dims.len() != shape.len() {
        return Err(Error::malformed("chunk shape does not have the rank of its dataset"));
    }
    let r = match (*index, address) {
        (ChunkIndex::BtreeV1, None) => {
            let none: Vec<ChunkRecord> = Vec::new();
            let sorted = sort_records(none);
            assert(views(none@) =~= Seq::<ChunkRecordView>::empty());
            Ok(sorted)
        },
        (ChunkIndex::BtreeV1, Some(a)) => read_chunk_index(ctx, a, shape.len()),
        _ => crate::chunk_index::read(ctx, index, address, shape, dims, width, filtered),
    };
    proof {
        if r is Ok {
            let found = match (*index, address) {
                (ChunkIndex::BtreeV1, None) => Ok(Seq::empty()),
                (ChunkIndex::BtreeV1, Some(a)) => chunk_walk(
                    ctx@,
                    shape@.len(),
                    seq![a],
                    Set::empty(),
                    0,
                    Seq::empty(),
                ),
                _ => indexed_chunks(ctx@, *index, address, shape@, dims@, width as nat, filtered),
            };
            lemma_ordered(found->Ok_0, views(r->Ok_0@));
        }
    }
    r
}

/// A block that is there in full holds whatever a selection takes of it.
proof fn lemma_holds_all(slab: SlabView, offset: Seq<u64>, dims: Seq<u64>, width: nat, len: nat)
    requires
        width > 0,
        product(dims) * width <= len <= u64::MAX,
    ensures
        holds(slab, offset, dims, width, 0, len),
{
    assert forall|index: Seq<int>|
        #![trigger ravel(local(index, offset), dims)]
        covers(offset, dims, index) && covers(slab.start, slab.count, index) implies {
        let number = ravel(local(index, offset), dims);
        0 <= number <= u64::MAX && (number + 1 - 0) * width <= len
    } by {
        let block = SlabView { start: offset, count: dims };
        lemma_selects(block, index);
        let number = ravel(local(index, offset), dims);
        let total = product(dims);
        assert((number + 1) * width <= total * width && number <= (number + 1) * width)
            by (nonlinear_arith)
            requires
                0 <= number,
                number + 1 <= total,
                width > 0,
        ;
    }
}

/// A larger index has no smaller number.
proof fn lemma_ravel_monotonic(low: Seq<int>, high: Seq<int>, shape: Seq<u64>)
    requires
        low.len() == high.len() == shape.len(),
        forall|a: int| 0 <= a < shape.len() ==> #[trigger] low[a] <= high[a],
    ensures
        ravel(low, shape) <= ravel(high, shape),
    decreases shape.len(),
{
    if shape.len() > 0 {
        assert forall|a: int| 0 <= a < shape.len() - 1 implies #[trigger] low.drop_last()[a]
            <= high.drop_last()[a] by {
            assert(low[a] <= high[a]);
        }
        lemma_ravel_monotonic(low.drop_last(), high.drop_last(), shape.drop_last());
        let (x, y) = (
            ravel(low.drop_last(), shape.drop_last()),
            ravel(high.drop_last(), shape.drop_last()),
        );
        let c = shape.last() as int;
        assert(x * c <= y * c) by (nonlinear_arith)
            requires
                x <= y,
                0 <= c,
        ;
        assert(low[shape.len() - 1] <= high[shape.len() - 1]);
    }
}

/// The index of the last element of a selection.
spec fn last_index(slab: SlabView) -> Seq<int> {
    Seq::new(slab.start.len(), |a: int| slab.start[a] + slab.count[a] - 1)
}

/// What stands between the first and the last element of a selection holds all
/// of it.
proof fn lemma_holds_span(slab: SlabView, shape: Seq<u64>, width: nat)
    requires
        width > 0,
        slab.within(shape),
        product(slab.count) > 0,
        (last_number(slab, shape) + 1) * width <= u64::MAX,
    ensures
        0 <= first_number(slab, shape) <= last_number(slab, shape) < product(shape),
        holds(
            slab,
            origin(shape.len()),
            shape,
            width,
            first_number(slab, shape),
            ((last_number(slab, shape) + 1 - first_number(slab, shape)) * width) as nat,
        ),
{
    let first = first_number(slab, shape);
    let last = last_number(slab, shape);
    lemma_span(slab, shape);
    let len = (last + 1 - first) * width;
    assert(0 <= len) by (nonlinear_arith)
        requires
            first <= last,
            width > 0,
            len == (last + 1 - first) * width,
    ;
    assert(last < (last + 1) * width) by (nonlinear_arith)
        requires
            0 <= last,
            width > 0,
    ;
    assert forall|index: Seq<int>|
        #![trigger ravel(local(index, origin(shape.len())), shape)]
        covers(origin(shape.len()), shape, index) && covers(
            slab.start,
            slab.count,
            index,
        ) implies {
        let number = ravel(local(index, origin(shape.len())), shape);
        first <= number <= u64::MAX && (number + 1 - first) * width <= len
    } by {
        assert(local(index, origin(shape.len())) =~= index);
        let number = ravel(index, shape);
        assert forall|a: int| 0 <= a < shape.len() implies #[trigger] integers(slab.start)[a]
            <= index[a] by {
            assert(slab.start[a] <= index[a] < slab.start[a] + slab.count[a]);
        }
        assert forall|a: int| 0 <= a < shape.len() implies #[trigger] index[a] <= last_index(
            slab,
        )[a] by {
            assert(slab.start[a] <= index[a] < slab.start[a] + slab.count[a]);
        }
        lemma_ravel_monotonic(integers(slab.start), index, shape);
        lemma_ravel_monotonic(index, last_index(slab), shape);
        assert(last == ravel(last_index(slab), shape));
        assert((number + 1 - first) * width <= len) by (nonlinear_arith)
            requires
                number <= last,
                width > 0,
                len == (last + 1 - first) * width,
        ;
    }
}

/// The first and the last element of a selection are elements of the array.
proof fn lemma_span(slab: SlabView, shape: Seq<u64>)
    requires
        slab.within(shape),
        product(slab.count) > 0,
    ensures
        0 <= first_number(slab, shape) <= last_number(slab, shape) < product(shape),
        forall|a: int| 0 <= a < shape.len() ==> #[trigger] slab.count[a] > 0,
{
    assert forall|a: int| 0 <= a < shape.len() implies #[trigger] slab.count[a] > 0 by {
        if slab.count[a] == 0 {
            lemma_product_zero(slab.count, a);
        }
    }
    let (low, high) = (integers(slab.start), last_index(slab));
    assert forall|a: int| 0 <= a < shape.len() implies {
        &&& 0 <= #[trigger] low[a] <= high[a]
        &&& high[a] < shape[a]
    } by {
        assert(slab.start[a] + slab.count[a] <= shape[a]);
        assert(slab.count[a] > 0);
    }
    assert forall|a: int| 0 <= a < shape.len() implies 0 <= #[trigger] high[a] < shape[a] by {
        assert(0 <= low[a] <= high[a]);
    }
    lemma_ravel_monotonic(low, high, shape);
    every_index_has_an_element(low, shape);
    every_index_has_an_element(high, shape);
}

/// Read a selection of a dataset whose values stand in one run.
fn read_contiguous<S: ByteSource + ?Sized>(
    ctx: Ctx<'_, S>,
    address: u64,
    shape: &[u64],
    width: usize,
    slab: &Hyperslab,
    out: &mut Vec<u8>,
) -> (r: Result<()>)
    requires
        0 < width <= u32::MAX,
        slab@.within(shape@),
        old(out)@.len() == product(slab@.count) * width,
        product(slab@.count) > 0,
    ensures
        final(out)@.len() == old(out)@.len(),
        agrees(
            outcome(r, final(out)@),
            from_contiguous(ctx@, address, shape@, width as nat, slab@, old(out)@),
            ctx.dependable() || !run_reads(ctx@, address, shape@, width as nat, slab@),
        ),
{
    let ghost first = first_number(slab@, shape@);
    let ghost last = last_number(slab@, shape@);
    let ghost before = out@;
    proof {
        lemma_span(slab@, shape@);
    }
    let mut end: Vec<u64> = Vec::new();
    let mut corner: Vec<u64> = Vec::new();
    while end.len() < shape.len()
        invariant
            slab@.within(shape@),
            forall|a: int| 0 <= a < shape@.len() ==> #[trigger] slab@.count[a] > 0,
            end@.len() == corner@.len() <= shape@.len(),
            forall|a: int|
                0 <= a < end@.len() ==> #[trigger] end@[a] == slab@.start[a] + slab@.count[a] - 1,
            forall|a: int| 0 <= a < corner@.len() ==> #[trigger] corner@[a] == 0,
        decreases shape@.len() - end@.len(),
    {
        let a: usize = end.len();
        assert(slab@.start[a as int] + slab@.count[a as int] <= shape@[a as int]);
        assert(slab@.count[a as int] > 0);
        end.push(slab.start[a] + (slab.count[a] - 1));
        corner.push(0);
    }
    assert(integers(end@) =~= last_index(slab@));
    assert(corner@ =~= origin(shape@.len()));
    let last_at: u128 = match number_of(end.as_slice(), shape) {
        Some(n) => n as u128,
        None => {
            proof {
                assert((last + 1) * width > u64::MAX) by (nonlinear_arith)
                    requires
                        last > u64::MAX,
                        width > 0,
                ;
            }
            return Err(Error::malformed("dataset storage past what 64 bits can address"));
        },
    };
    assert(last_at == last);
    let first_at: u128 = match number_of(slab.start.as_slice(), shape) {
        Some(n) => n as u128,
        None => 0,
    };
    assert(first_at == first);
    proof {
        let w = width as int;
        assert(0 <= first * w && 0 <= (last + 1 - first) * w <= (last + 1) * w <= 0x1_0000_0000_0000_0000
            * 0x1_0000_0000 && first * w <= (last + 1) * w) by (nonlinear_arith)
            requires
                0 <= first <= last < 0x1_0000_0000_0000_0000,
                0 < w < 0x1_0000_0000,
        ;
    }
    if (last_at + 1) * width as u128 > u64::MAX as u128 {
        return Err(Error::malformed("dataset storage past what 64 bits can address"));
    }
    let at: u64 = address.wrapping_add((first_at * width as u128) as u64);
    let len: u128 = (last_at + 1 - first_at) * width as u128;
    proof {
        let w = width as int;
        lemma_holds_span(slab@, shape@, width as nat);
        let total = address + first * w;
        assert(at == total % 0x1_0000_0000_0000_0000);
    }
    let data = ctx.read_wide(at, len)?;
    assert(data@.len() == (last + 1 - first) * width);
    assert(countable(slab@)) by {
        assert forall|a: int| 0 <= a < slab@.start.len() implies #[trigger] slab@.start[a]
            + slab@.count[a] <= u64::MAX by {
            assert(slab@.start[a] + slab@.count[a] <= shape@[a]);
        }
    }
    overlay(out, slab, corner.as_slice(), shape, width, first_at as u64, data.as_slice());
    Ok(())
}

/// Lay the chunks that hold something of a selection over it.
fn read_chunks<S: ByteSource + ?Sized>(
    ctx: Ctx<'_, S>,
    filters: &FilterPipeline,
    dims: &[u64],
    width: usize,
    slab: &Hyperslab,
    records: &Vec<ChunkRecord>,
    out: &mut Vec<u8>,
) -> (r: Result<()>)
    requires
        width > 0,
        countable(slab@),
        old(out)@.len() == product(slab@.count) * width,
    ensures
        final(out)@.len() == old(out)@.len(),
        agrees(
            outcome(r, final(out)@),
            from_chunks(
                ctx@,
                filters@,
                dims@,
                width as nat,
                slab@,
                views(records@),
                0,
                old(out)@,
            ),
            ctx.dependable() || !chunk_bytes_read(ctx@, dims@, slab@, views(records@), 0),
        ),
{
    let ghost all = views(records@);
    let ghost result = from_chunks(ctx@, filters@, dims@, width as nat, slab@, all, 0, out@);
    let want: Option<usize> = match checked_product(dims) {
        Some(n) if n <= usize::MAX as u64 => (n as usize).checked_mul(width),
        _ => None,
    };
    proof {
        if product(dims@) > usize::MAX {
            assert(product(dims@) * width > usize::MAX) by (nonlinear_arith)
                requires
                    product(dims@) > usize::MAX,
                    width > 0,
            ;
        }
    }
    let mut i: usize = 0;
    while i < records.len()
        invariant
            i <= records@.len(),
            width > 0,
            countable(slab@),
            all == views(records@),
            result == from_chunks(
                ctx@,
                filters@,
                dims@,
                width as nat,
                slab@,
                all,
                0,
                old(out)@,
            ),
            out@.len() == product(slab@.count) * width,
            out@.len() == old(out)@.len(),
            match want {
                Some(n) => n == product(dims@) * width,
                None => product(dims@) * width > usize::MAX,
            },
            result == from_chunks(
                ctx@,
                filters@,
                dims@,
                width as nat,
                slab@,
                all,
                i as int,
                out@,
            ),
            chunk_bytes_read(ctx@, dims@, slab@, all, i as int) ==> chunk_bytes_read(
                ctx@,
                dims@,
                slab@,
                all,
                0,
            ),
        decreases records@.len() - i,
    {
        let record = &records[i];
        assert(all[i as int] == record@);
        if touches(slab, record.offset.as_slice(), dims) {
            let raw = ctx.read(record.address, record.size as u64)?;
            let hint: usize = match want {
                Some(n) => n,
                None => usize::MAX,
            };
            let data = decode_chunk(filters, record.filter_mask, raw, hint)?;
            let long_enough: bool = match want {
                Some(n) => data.len() >= n,
                None => false,
            };
            assert(data.len() <= usize::MAX);
            if !long_enough {
                return Err(Error::malformed("chunk decodes to fewer bytes than its shape takes"));
            }
            proof {
                lemma_holds_all(slab@, record.offset@, dims@, width as nat, data@.len());
            }
            overlay(out, slab, record.offset.as_slice(), dims, width, 0, data.as_slice());
        }
        i = i + 1;
    }
    Ok(())
}

/// What the bytes of a selection become, where a read of them can fail.
spec fn outcome(r: Result<()>, out: Seq<u8>) -> std::result::Result<Seq<u8>, ErrorView> {
    match r {
        Ok(()) => Ok(out),
        Err(e) => Err(e@),
    }
}

/// Take a selection of a dataset whose values stand in its object header.
fn read_compact(data: &[u8], shape: &[u64], width: usize, slab: &Hyperslab, out: &mut Vec<u8>) -> (r:
    Result<()>)
    requires
        width > 0,
        countable(slab@),
        old(out)@.len() == product(slab@.count) * width,
    ensures
        final(out)@.len() == old(out)@.len(),
        outcome(r, final(out)@) == from_compact(data@, shape@, width as nat, slab@, old(out)@),
{
    let ghost total = product(shape@);
    assert(data.len() <= usize::MAX);
    let long_enough: bool = match checked_product(shape) {
        Some(n) => {
            proof {
                assert(n * width <= u64::MAX * usize::MAX) by (nonlinear_arith)
                    requires
                        n <= u64::MAX,
                        width <= usize::MAX,
                ;
            }
            n as u128 * width as u128 <= data.len() as u128
        },
        None => {
            assert(total * width > u64::MAX) by (nonlinear_arith)
                requires
                    total > u64::MAX,
                    width > 0,
            ;
            false
        },
    };
    if !long_enough {
        return Err(Error::malformed("compact storage is shorter than its dataset"));
    }
    let corner: Vec<u64> = vec![0u64; shape.len()];
    proof {
        assert(corner@ =~= origin(shape@.len()));
        lemma_holds_all(slab@, corner@, shape@, width as nat, data@.len());
    }
    overlay(out, slab, corner.as_slice(), shape, width, 0, data);
    Ok(())
}

/// Lay what a dataset stores of a selection over the fill value.
fn read_stored<S: ByteSource + ?Sized>(
    ctx: Ctx<'_, S>,
    dataset: &DatasetIndex,
    slab: &Hyperslab,
    width: usize,
    out: &mut Vec<u8>,
) -> (r: Result<()>)
    requires
        0 < width == dataset.datatype@.size,
        slab@.within(dataset.shape@),
        countable(slab@),
        product(slab@.count) > 0,
        old(out)@ == filled_bytes(
            dataset.fill_value@,
            width as nat,
            product(slab@.count) * width as nat,
        ),
        old(out)@.len() > 0,
    ensures
        final(out)@.len() == old(out)@.len(),
        agrees(
            outcome(r, final(out)@),
            stored_bytes(ctx@, *dataset, slab@),
            ctx.dependable() || !storage_reads(ctx@, *dataset, slab@),
        ),
{
    match &dataset.layout {
        Layout::Compact { data } => read_compact(
            data.as_slice(),
            dataset.shape.as_slice(),
            width,
            slab,
            out,
        ),
        Layout::Contiguous { address: None, .. } => Ok(()),
        Layout::Contiguous { address: Some(a), .. } => read_contiguous(
            ctx,
            *a,
            dataset.shape.as_slice(),
            width,
            slab,
            out,
        ),
        Layout::Chunked { address, chunk_dims, index, .. } => {
            let dims = widen(chunk_dims);
            let filtered: bool = !dataset.pipeline.is_empty();
            let records = chunk_records(
                ctx,
                *address,
                index,
                dataset.shape.as_slice(),
                dims.as_slice(),
                width,
                filtered,
            )?;
            read_chunks(ctx, &dataset.pipeline, dims.as_slice(), width, slab, &records, out)
        },
    }
}

/// How many bytes a selection takes, if memory can hold them.
fn selection_len(slab: &Hyperslab, width: u32) -> (r: Option<usize>)
    ensures
        match r {
            Some(n) => n == product(slab@.count) * width,
            None => product(slab@.count) * width > usize::MAX,
        },
{
    let ghost total = product(slab@.count);
    if width == 0 {
        assert(total * 0 == 0) by (nonlinear_arith);
        return Some(0);
    }
    match checked_product(slab.count.as_slice()) {
        Some(n) => {
            assert(n * width <= u64::MAX * u32::MAX) by (nonlinear_arith)
                requires
                    n <= u64::MAX,
                    width <= u32::MAX,
            ;
            let len: u128 = n as u128 * width as u128;
            if len <= usize::MAX as u128 {
                Some(len as usize)
            } else {
                None
            }
        },
        None => {
            assert(total * width > u64::MAX) by (nonlinear_arith)
                requires
                    total > u64::MAX,
                    width > 0,
            ;
            None
        },
    }
}

/// Put the least significant byte of each number first.
fn put_in_little_order(datatype: &Datatype, bytes: Vec<u8>) -> (r: Vec<u8>)
    requires
        datatype@.size > 0 ==> bytes@.len() % datatype@.size as nat == 0,
        datatype@.size == 0 ==> bytes@.len() == 0,
    ensures
        r@ == in_little_order(datatype@, bytes@),
{
    let width: usize = datatype.size as usize;
    match datatype.byte_order() {
        Some(ByteOrder::Big) => if width > 0 {
            reverse_elements(&bytes, width)
        } else {
            assert(in_little_order(datatype@, bytes@) =~= bytes@);
            bytes
        },
        _ => bytes,
    }
}

/// Read a selection of a dataset.
///
/// The block comes back in row-major order with the least significant byte of
/// each number first, whichever order the file uses.
pub fn read_hyperslab<S: ByteSource + ?Sized>(
    ctx: Ctx<'_, S>,
    dataset: &DatasetIndex,
    slab: &Hyperslab,
) -> (r: Result<RawData>)
    ensures
        agrees(
            seen(r),
            hyperslab_of(ctx@, *dataset, slab@),
            ctx.dependable() || !hyperslab_reads(ctx@, *dataset, slab@),
        ),
{
    slab.validate(dataset.shape.as_slice())?;
    proof {
        checked_selections_lie_within(slab@, dataset.shape@);
        assert forall|a: int| 0 <= a < slab@.start.len() implies #[trigger] slab@.start[a]
            + slab@.count[a] <= u64::MAX by {
            assert(slab@.start[a] + slab@.count[a] <= dataset.shape@[a]);
        }
        assert(countable(slab@));
    }
    let width: usize = dataset.datatype.size as usize;
    let len: usize = match selection_len(slab, dataset.datatype.size) {
        Some(n) => n,
        None => {
            return Err(Error::bad_request("selection is too large"));
        },
    };
    let mut out: Vec<u8> = vec![0u8; len];
    dataset.fill_value.fill(out.as_mut_slice(), width);
    proof {
        let total = product(slab@.count);
        assert(out@ =~= filled_bytes(dataset.fill_value@, width as nat, total * width as nat));
        assert(total == 0 || width == 0 ==> total * width == 0) by (nonlinear_arith);
    }
    if len > 0 {
        read_stored(ctx, dataset, slab, width, &mut out)?;
    }
    proof {
        let total = product(slab@.count);
        if width > 0 {
            lemma_mod_multiples_basic(total as int, width as int);
        }
        assert(out@.len() == total * width);
    }
    let bytes = put_in_little_order(&dataset.datatype, out);
    Ok(RawData { bytes, element_size: width, shape: slice_to_vec(slab.count.as_slice()) })
}

// ── values in the global heap ──────────────────────────────────────────────

/// The error of following the pointers of a dataset whose values are none, or
/// point at something else.
pub open spec fn not_stored_as(d: DatasetIndex, asked: Seq<char>) -> ErrorView {
    ErrorView::TypeMismatch { stored: dtype_name(dtype_of(d.datatype@)), asked, what: d.path@ }
}

/// Whether following the values of a block to strings reads anything.
pub open spec fn strings_read(ctx: CtxView, d: DatasetIndex, raw: RawDataView) -> bool {
    match d.datatype@.class {
        ClassView::VariableLength { kind: VlenKind::String, .. } => product(raw.shape) <= u64::MAX
            && follows(ctx, raw.bytes, product(raw.shape), 0),
        _ => false,
    }
}

/// Whether following the values of a block to ragged rows reads anything.
pub open spec fn sequences_read(ctx: CtxView, d: DatasetIndex, raw: RawDataView) -> bool {
    match d.datatype@.class {
        ClassView::VariableLength { kind: VlenKind::Sequence, .. } => product(raw.shape) <= u64::MAX
            && follows(ctx, raw.bytes, product(raw.shape), 0),
        _ => false,
    }
}

/// The strings that the values of a block point at.
pub open spec fn heap_strings(ctx: CtxView, d: DatasetIndex, raw: RawDataView) -> std::result::Result<
    Seq<Seq<char>>,
    ErrorView,
> {
    match d.datatype@.class {
        ClassView::VariableLength { kind: VlenKind::String, .. } => if product(raw.shape)
            > u64::MAX {
            Err(ErrorView::BadRequest("selection is too large"@))
        } else {
            strings_from(ctx, d.path@, raw.bytes, product(raw.shape), Seq::empty())
        },
        _ => Err(not_stored_as(d, "string"@)),
    }
}

/// The ragged rows that the values of a block point at, each number with its
/// least significant byte first.
pub open spec fn heap_sequences(ctx: CtxView, d: DatasetIndex, raw: RawDataView) -> std::result::Result<
    Seq<Seq<u8>>,
    ErrorView,
> {
    match d.datatype@.class {
        ClassView::VariableLength { kind: VlenKind::Sequence, base, .. } => if product(raw.shape)
            > u64::MAX {
            Err(ErrorView::BadRequest("selection is too large"@))
        } else {
            match sequences_from(
                ctx,
                d.path@,
                base.size as nat,
                raw.bytes,
                product(raw.shape),
                Seq::empty(),
            ) {
                Err(e) => Err(e),
                Ok(rows) => Ok(rows.map_values(|row: Seq<u8>| in_little_order(*base, row))),
            }
        },
        _ => Err(not_stored_as(d, "a ragged array"@)),
    }
}

fn mismatch(d: &DatasetIndex, asked: &'static str) -> (e: Error)
    ensures
        e@ == not_stored_as(*d, asked@),
{
    Error::TypeMismatch {
        stored: DType::of(&d.datatype).name(),
        asked,
        what: String::from_str(d.path.as_str()),
    }
}

/// Follow the values of a string dataset to the strings they stand for.
///
/// A dataset of anything else is refused rather than misread.
pub fn resolve_vlen_strings<S: ByteSource + ?Sized>(
    ctx: Ctx<'_, S>,
    dataset: &DatasetIndex,
    raw: &RawData,
) -> (r: Result<Vec<String>>)
    ensures
        agrees(
            match r {
                Ok(v) => Ok(views(v@)),
                Err(e) => Err(e@),
            },
            heap_strings(ctx@, *dataset, raw@),
            ctx.dependable() || !strings_read(ctx@, *dataset, raw@),
        ),
{
    let is_string: bool = match &dataset.datatype.class {
        DatatypeClass::VariableLength { kind, .. } => *kind == VlenKind::String,
        _ => false,
    };
    if !is_string {
        return Err(mismatch(dataset, "string"));
    }
    match checked_product(raw.shape.as_slice()) {
        None => Err(Error::bad_request("selection is too large")),
        Some(count) => resolve_vlen_strings_of(
            ctx,
            dataset.path.as_str(),
            raw.bytes.as_slice(),
            count,
        ),
    }
}

/// Follow the values of a ragged dataset to the rows they stand for.
///
/// An empty row is a real value, not a missing one. A dataset of anything else
/// is refused rather than misread.
pub fn resolve_vlen_sequences<S: ByteSource + ?Sized>(
    ctx: Ctx<'_, S>,
    dataset: &DatasetIndex,
    raw: &RawData,
) -> (r: Result<Vec<Vec<u8>>>)
    ensures
        agrees(
            match r {
                Ok(v) => Ok(views(v@)),
                Err(e) => Err(e@),
            },
            heap_sequences(ctx@, *dataset, raw@),
            ctx.dependable() || !sequences_read(ctx@, *dataset, raw@),
        ),
{
    let base: &Datatype = match &dataset.datatype.class {
        DatatypeClass::VariableLength { kind, base, .. } => if *kind == VlenKind::Sequence {
            base
        } else {
            return Err(mismatch(dataset, "a ragged array"));
        },
        _ => {
            return Err(mismatch(dataset, "a ragged array"));
        },
    };
    let count: u64 = match checked_product(raw.shape.as_slice()) {
        None => {
            return Err(Error::bad_request("selection is too large"));
        },
        Some(n) => n,
    };
    let rows = resolve_vlen_sequences_of(
        ctx,
        dataset.path.as_str(),
        base.size,
        raw.bytes.as_slice(),
        count,
    )?;
    let ghost stored = sequences_from(
        ctx@,
        dataset.path@,
        base@.size as nat,
        raw@.bytes,
        product(raw@.shape),
        Seq::empty(),
    )->Ok_0;
    let ghost want = stored.map_values(|row: Seq<u8>| in_little_order(base@, row));
    let mut out: Vec<Vec<u8>> = Vec::new();
    assert(views(out@) =~= want.take(0));
    while out.len() < rows.len()
        invariant
            views(rows@) == stored,
            stored == sequences_from(
                ctx@,
                dataset.path@,
                base@.size as nat,
                raw@.bytes,
                count as nat,
                Seq::empty(),
            )->Ok_0,
            sequences_from(
                ctx@,
                dataset.path@,
                base@.size as nat,
                raw@.bytes,
                count as nat,
                Seq::empty(),
            ) is Ok,
            want == stored.map_values(|row: Seq<u8>| in_little_order(base@, row)),
            out@.len() <= rows@.len(),
            views(out@) == want.take(out@.len() as int),
        decreases rows@.len() - out@.len(),
    {
        let i: usize = out.len();
        proof {
            lemma_whole_items(
                ctx@,
                dataset.path@,
                base@.size as nat,
                raw@.bytes,
                count as nat,
                Seq::empty(),
                i as int,
            );
            assert(stored[i as int] == rows@[i as int]@);
        }
        let row = put_in_little_order(base, slice_to_vec(rows[i].as_slice()));
        out.push(row);
        assert(views(out@) =~= want.take(out@.len() as int));
    }
    assert(views(out@) =~= want);
    Ok(out)
}

/// Every row holds a whole number of items.
proof fn lemma_whole_items(
    ctx: CtxView,
    owner: Seq<char>,
    width: nat,
    data: Seq<u8>,
    count: nat,
    out: Seq<Seq<u8>>,
    i: int,
)
    requires
        sequences_from(ctx, owner, width, data, count, out) is Ok,
        0 <= i < sequences_from(ctx, owner, width, data, count, out)->Ok_0.len(),
        forall|j: int|
            0 <= j < out.len() ==> (width > 0 ==> (#[trigger] out[j]).len() % width == 0) && (width
                == 0 ==> out[j].len() == 0),
    ensures
        ({
            let row = sequences_from(ctx, owner, width, data, count, out)->Ok_0[i];
            (width > 0 ==> row.len() % width == 0) && (width == 0 ==> row.len() == 0)
        }),
    decreases count - out.len(),
{
    if out.len() < count {
        let d = value_of(
            descriptor_at(data, (out.len() * descriptor_len(ctx.sizes())) as int, ctx.sizes()),
        )->Ok_0;
        let row = sequence_of(ctx, owner, width, d)->Ok_0;
        assert((width > 0 ==> row.len() % width == 0) && (width == 0 ==> row.len() == 0)) by {
            if width > 0 {
                lemma_mod_multiples_basic(d.length as int, width as int);
                lemma_small_mod(0, width);
            } else {
                assert(d.length * 0 == 0) by (nonlinear_arith);
            }
        }
        lemma_whole_items(ctx, owner, width, data, count, out.push(row), i);
    }
}

// ── what a read gives back ─────────────────────────────────────────────────

/// What byte `r` of the element at `index` reads as once the chunks from number
/// `i` on had their say: the last one that covers the index decides, and without
/// one it stays `byte`.
pub open spec fn byte_from(
    ctx: CtxView,
    filters: Seq<FilterView>,
    dims: Seq<u64>,
    width: nat,
    records: Seq<ChunkRecordView>,
    i: int,
    index: Seq<int>,
    r: int,
    byte: u8,
) -> u8
    decreases records.len() - i,
{
    if i >= records.len() {
        byte
    } else {
        let covered = covers(records[i].offset, dims, index);
        let values = chunk_values(ctx, filters, records[i], product(dims) * width);
        byte_from(
            ctx,
            filters,
            dims,
            width,
            records,
            i + 1,
            index,
            r,
            if covered && values is Ok {
                values->Ok_0[ravel(local(index, records[i].offset), dims) * width + r]
            } else {
                byte
            },
        )
    }
}

/// The bytes of a selection, one by one.
proof fn lemma_bytes_from_chunks(
    ctx: CtxView,
    filters: Seq<FilterView>,
    dims: Seq<u64>,
    width: nat,
    slab: SlabView,
    records: Seq<ChunkRecordView>,
    i: int,
    out: Seq<u8>,
    b: int,
)
    requires
        width > 0,
        countable(slab),
        out.len() == product(slab.count) * width,
        0 <= b < out.len(),
        0 <= i,
        from_chunks(ctx, filters, dims, width, slab, records, i, out) is Ok,
    ensures
        ({
            let bytes = from_chunks(ctx, filters, dims, width, slab, records, i, out)->Ok_0;
            let index = selected_index(slab, b / width as int);
            &&& bytes.len() == out.len()
            &&& bytes[b] == byte_from(
                ctx,
                filters,
                dims,
                width,
                records,
                i,
                index,
                b % width as int,
                out[b],
            )
        }),
    decreases records.len() - i,
{
    if i < records.len() {
        let k = b / width as int;
        lemma_element_of_byte(product(slab.count), width, b);
        lemma_selected(slab, k);
        lemma_overlap(slab, records[i].offset, dims, selected_index(slab, k));
        let next = if meets(slab, records[i].offset, dims) {
            let data = chunk_values(ctx, filters, records[i], product(dims) * width)->Ok_0;
            overlaid(out, slab, records[i].offset, dims, width, 0, data)
        } else {
            out
        };
        lemma_bytes_from_chunks(ctx, filters, dims, width, slab, records, i + 1, next, b);
    }
}

/// Which element a byte belongs to.
proof fn lemma_element_of_byte(total: nat, width: nat, b: int)
    requires
        width > 0,
        0 <= b < total * width,
    ensures
        0 <= b / width as int,
        b / width as int + 1 <= total,
        0 <= b % width as int,
        b % (width as int) < width,
        b == b / width as int * width + b % width as int,
{
    let w = width as int;
    lemma_fundamental_div_mod(b, w);
    let k = b / w;
    assert(0 <= k && k + 1 <= total && w * k == k * w) by (nonlinear_arith)
        requires
            0 <= b < total * w,
            b == w * k + b % w,
            0 <= b % w < w,
    ;
}

/// The byte of an element, counted from the front.
pub proof fn lemma_byte_of_element(k: int, width: nat, r: int)
    requires
        0 <= k,
        0 <= r < width,
    ensures
        (k * width + r) / width as int == k,
        (k * width + r) % width as int == r,
        0 <= k * width + r,
{
    lemma_fundamental_div_mod_converse(k * width + r, width as int, k, r);
    assert(0 <= k * width) by (nonlinear_arith)
        requires
            0 <= k,
            0 <= width,
    ;
}

/// Every byte of a chunked read is the one that the chunks give its element:
/// what the last chunk that covers the element holds there, or the fill value.
pub proof fn a_chunked_read_gives_every_selected_element(
    ctx: CtxView,
    filters: Seq<FilterView>,
    dims: Seq<u64>,
    width: nat,
    slab: SlabView,
    records: Seq<ChunkRecordView>,
    fill: Option<Seq<u8>>,
    k: int,
    r: int,
)
    requires
        countable(slab),
        0 <= k < product(slab.count),
        0 <= r < width,
        from_chunks(
            ctx,
            filters,
            dims,
            width,
            slab,
            records,
            0,
            filled_bytes(fill, width, product(slab.count) * width),
        ) is Ok,
    ensures
        from_chunks(
            ctx,
            filters,
            dims,
            width,
            slab,
            records,
            0,
            filled_bytes(fill, width, product(slab.count) * width),
        )->Ok_0[k * width + r] == byte_from(
            ctx,
            filters,
            dims,
            width,
            records,
            0,
            selected_index(slab, k),
            r,
            fill_byte(fill, width, r),
        ),
{
    let out = filled_bytes(fill, width, product(slab.count) * width);
    let b = k * width + r;
    lemma_byte_of_element(k, width, r);
    let total = product(slab.count);
    assert(b < total * width) by (nonlinear_arith)
        requires
            b == k * width + r,
            k + 1 <= total,
            r < width,
    ;
    lemma_bytes_from_chunks(ctx, filters, dims, width, slab, records, 0, out, b);
    lemma_small_mod(r as nat, width);
}

/// Where no chunk is stored, a read gives the fill value.
pub proof fn unwritten_elements_read_as_the_fill_value(
    ctx: CtxView,
    filters: Seq<FilterView>,
    dims: Seq<u64>,
    width: nat,
    records: Seq<ChunkRecordView>,
    i: int,
    index: Seq<int>,
    r: int,
    byte: u8,
)
    requires
        0 <= i,
        forall|j: int|
            i <= j < records.len() ==> !covers((#[trigger] records[j]).offset, dims, index),
    ensures
        byte_from(ctx, filters, dims, width, records, i, index, r, byte) == byte,
    decreases records.len() - i,
{
    if i < records.len() {
        unwritten_elements_read_as_the_fill_value(
            ctx,
            filters,
            dims,
            width,
            records,
            i + 1,
            index,
            r,
            byte,
        );
    }
}

/// Where one chunk covers an element, a read gives what that chunk holds there.
pub proof fn written_elements_read_as_written(
    ctx: CtxView,
    filters: Seq<FilterView>,
    dims: Seq<u64>,
    width: nat,
    records: Seq<ChunkRecordView>,
    i: int,
    at: int,
    index: Seq<int>,
    r: int,
    byte: u8,
)
    requires
        0 <= i <= at < records.len(),
        covers(records[at].offset, dims, index),
        forall|j: int|
            at < j < records.len() ==> !covers((#[trigger] records[j]).offset, dims, index),
        chunk_values(ctx, filters, records[at], product(dims) * width) is Ok,
    ensures
        byte_from(ctx, filters, dims, width, records, i, index, r, byte) == chunk_values(
            ctx,
            filters,
            records[at],
            product(dims) * width,
        )->Ok_0[ravel(local(index, records[at].offset), dims) * width + r],
    decreases at - i,
{
    let covered = covers(records[i].offset, dims, index);
    let values = chunk_values(ctx, filters, records[i], product(dims) * width);
    let next = if covered && values is Ok {
        values->Ok_0[ravel(local(index, records[i].offset), dims) * width + r]
    } else {
        byte
    };
    if i == at {
        unwritten_elements_read_as_the_fill_value(
            ctx,
            filters,
            dims,
            width,
            records,
            i + 1,
            index,
            r,
            next,
        );
    } else {
        written_elements_read_as_written(
            ctx,
            filters,
            dims,
            width,
            records,
            i + 1,
            at,
            index,
            r,
            next,
        );
    }
}

/// An element of a selection is an element of the whole array.
proof fn lemma_in_the_whole(slab: SlabView, shape: Seq<u64>, k: int)
    requires
        slab.within(shape),
        0 <= k < product(slab.count),
    ensures
        ({
            let index = selected_index(slab, k);
            let at = ravel(index, shape);
            &&& 0 <= at < product(shape)
            &&& selected_index(whole_of(shape), at) == index
            &&& local(index, origin(shape.len())) == index
            &&& covers(origin(shape.len()), shape, index)
            &&& covers(slab.start, slab.count, index)
        }),
{
    lemma_selected(slab, k);
    let index = selected_index(slab, k);
    assert forall|a: int| 0 <= a < shape.len() implies 0 <= #[trigger] index[a] < shape[a] by {
        assert(slab.start[a] <= index[a] < slab.start[a] + slab.count[a]);
        assert(slab.start[a] + slab.count[a] <= shape[a]);
    }
    every_index_has_an_element(index, shape);
    assert(selected_index(whole_of(shape), ravel(index, shape)) =~= index);
    assert(local(index, origin(shape.len())) =~= index);
}

/// What a selection takes something of, the whole array does too.
proof fn lemma_the_whole_meets(
    slab: SlabView,
    shape: Seq<u64>,
    offset: Seq<u64>,
    dims: Seq<u64>,
)
    requires
        slab.within(shape),
        meets(slab, offset, dims),
    ensures
        meets(whole_of(shape), offset, dims),
{
    let whole = whole_of(shape);
    assert forall|a: int| 0 <= a < whole.start.len() implies #[trigger] overlap_start(
        whole,
        offset,
        a,
    ) < overlap_end(whole, offset, dims, a) by {
        assert(overlap_start(slab, offset, a) < overlap_end(slab, offset, dims, a));
        assert(slab.start[a] + slab.count[a] <= shape[a]);
    }
}

/// Where the chunks of the whole can be read, so can those of a selection.
proof fn lemma_part_of_chunks(
    ctx: CtxView,
    filters: Seq<FilterView>,
    dims: Seq<u64>,
    width: nat,
    slab: SlabView,
    shape: Seq<u64>,
    records: Seq<ChunkRecordView>,
    i: int,
    part: Seq<u8>,
    all: Seq<u8>,
)
    requires
        0 <= i,
        slab.within(shape),
        from_chunks(ctx, filters, dims, width, whole_of(shape), records, i, all) is Ok,
    ensures
        from_chunks(ctx, filters, dims, width, slab, records, i, part) is Ok,
    decreases records.len() - i,
{
    if i < records.len() {
        let offset = records[i].offset;
        if meets(slab, offset, dims) {
            lemma_the_whole_meets(slab, shape, offset, dims);
        }
        let data = chunk_values(ctx, filters, records[i], product(dims) * width)->Ok_0;
        let next_part = if meets(slab, offset, dims) {
            overlaid(part, slab, offset, dims, width, 0, data)
        } else {
            part
        };
        let next_all = if meets(whole_of(shape), offset, dims) {
            overlaid(all, whole_of(shape), offset, dims, width, 0, data)
        } else {
            all
        };
        lemma_part_of_chunks(
            ctx,
            filters,
            dims,
            width,
            slab,
            shape,
            records,
            i + 1,
            next_part,
            next_all,
        );
    }
}

/// A selection that lies within an array can be counted.
proof fn lemma_within_countable(slab: SlabView, shape: Seq<u64>)
    requires
        slab.within(shape),
    ensures
        countable(slab),
{
    assert forall|a: int| 0 <= a < slab.start.len() implies #[trigger] slab.start[a]
        + slab.count[a] <= u64::MAX by {
        assert(slab.start[a] + slab.count[a] <= shape[a]);
    }
}

/// The span of a selection of one run of values lies within that of the whole.
proof fn lemma_part_of_contiguous(
    ctx: CtxView,
    address: u64,
    shape: Seq<u64>,
    width: nat,
    slab: SlabView,
    part: Seq<u8>,
    all: Seq<u8>,
    k: int,
    r: int,
)
    requires
        ctx.image.bytes.len() <= u64::MAX,
        slab.within(shape),
        0 <= k < product(slab.count),
        0 <= r < width,
        part.len() == product(slab.count) * width,
        all.len() == product(shape) * width,
        from_contiguous(ctx, address, shape, width, whole_of(shape), all) is Ok,
    ensures
        from_contiguous(ctx, address, shape, width, slab, part) is Ok,
        from_contiguous(ctx, address, shape, width, slab, part)->Ok_0[k * width + r]
            == from_contiguous(ctx, address, shape, width, whole_of(shape), all)->Ok_0[ravel(
            selected_index(slab, k),
            shape,
        ) * width + r],
{
    let whole = whole_of(shape);
    let w = width as int;
    let index = selected_index(slab, k);
    let at = ravel(index, shape);
    lemma_in_the_whole(slab, shape, k);
    the_whole_array_can_be_selected(shape);
    lemma_span(slab, shape);
    lemma_span(whole, shape);
    let (first, last) = (first_number(slab, shape), last_number(slab, shape));
    let (bottom, top) = (first_number(whole, shape), last_number(whole, shape));
    assert(bottom == 0) by {
        lemma_ravel_monotonic(integers(whole.start), integers(whole.start), shape);
        lemma_ravel_zero(integers(whole.start), shape);
    }
    assert forall|a: int| 0 <= a < shape.len() implies #[trigger] last_index(slab)[a]
        <= last_index(whole)[a] by {
        assert(slab.start[a] + slab.count[a] <= shape[a]);
    }
    lemma_ravel_monotonic(last_index(slab), last_index(whole), shape);
    assert forall|a: int| 0 <= a < shape.len() implies {
        &&& #[trigger] integers(slab.start)[a] <= index[a]
        &&& index[a] <= last_index(slab)[a]
    } by {
        assert(slab.start[a] <= index[a] < slab.start[a] + slab.count[a]);
    }
    assert forall|a: int| 0 <= a < shape.len() implies #[trigger] index[a] <= last_index(
        slab,
    )[a] by {
        assert(integers(slab.start)[a] <= index[a]);
    }
    lemma_ravel_monotonic(integers(slab.start), index, shape);
    lemma_ravel_monotonic(index, last_index(slab), shape);
    assert(first <= at <= last <= top);
    let len = (last + 1 - first) * w;
    assert(0 <= first * w && (last + 1) * w <= (top + 1) * w && first * w + len == (last + 1) * w
        && 0 <= len) by (nonlinear_arith)
        requires
            0 <= first <= last <= top,
            w > 0,
            len == (last + 1 - first) * w,
    ;
    assert((top + 1 - bottom) * w == (top + 1) * w);
    assert(bottom * w == 0) by (nonlinear_arith)
        requires
            bottom == 0,
    ;
    let m = 0x1_0000_0000_0000_0000int;
    let start = ctx.superblock.resolved(address);
    assert((address + 0) % m == address);
    let from = ((address + first * w) % m) as u64;
    assert(ctx.superblock.resolved(from) == start + first * w) by {
        let base = ctx.superblock.base_address as int;
        let x = base + address;
        lemma_add_mod_noop(base, address + first * w, m);
        lemma_mod_bound(address + first * w, m);
        lemma_small_mod(from as nat, m as nat);
        lemma_add_mod_noop(base, from as int, m);
        lemma_fundamental_div_mod(x, m);
        lemma_fundamental_div_mod_converse(x + first * w, m, x / m, start + first * w);
        assert(base + (address + first * w) == x + first * w);
    }
    let b = k * w + r;
    let c = at * w + r;
    lemma_byte_of_element(k, width, r);
    lemma_byte_of_element(at, width, r);
    let (total, size) = (product(slab.count), product(shape));
    assert(b < total * w && c < size * w) by (nonlinear_arith)
        requires
            b == k * w + r,
            c == at * w + r,
            k + 1 <= total,
            at + 1 <= size,
            0 <= r < w,
    ;
    assert(0 <= (at - first) * w + r < len && first * w + ((at - first) * w + r) == c)
        by (nonlinear_arith)
        requires
            first <= at <= last,
            0 <= r < w,
            c == at * w + r,
            len == (last + 1 - first) * w,
    ;
    assert((at - bottom) * w + r == c);
    assert(c < (top + 1) * w) by (nonlinear_arith)
        requires
            c == at * w + r,
            at <= top,
            0 <= r < w,
    ;
}

/// The number of the index of zeros is zero.
proof fn lemma_ravel_zero(index: Seq<int>, shape: Seq<u64>)
    requires
        index.len() == shape.len(),
        forall|a: int| 0 <= a < index.len() ==> #[trigger] index[a] == 0,
    ensures
        ravel(index, shape) == 0,
    decreases shape.len(),
{
    if shape.len() > 0 {
        assert forall|a: int| 0 <= a < index.len() - 1 implies #[trigger] index.drop_last()[a]
            == 0 by {
            assert(index[a] == 0);
        }
        lemma_ravel_zero(index.drop_last(), shape.drop_last());
        assert(index[index.len() - 1] == 0);
        assert(0 * shape.last() as int == 0) by (nonlinear_arith);
    }
}

/// A selection of what a dataset stores agrees with the whole, in the file's
/// byte order.
proof fn lemma_stored_part(ctx: CtxView, d: DatasetIndex, slab: SlabView, k: int, r: int)
    requires
        ctx.image.bytes.len() <= u64::MAX,
        slab.within(d.shape@),
        0 <= k < product(slab.count),
        0 <= r < d.datatype@.size,
        stored_bytes(ctx, d, whole_of(d.shape@)) is Ok,
    ensures
        ({
            let width = d.datatype@.size as nat;
            let part = stored_bytes(ctx, d, slab);
            let all = stored_bytes(ctx, d, whole_of(d.shape@));
            let at = ravel(selected_index(slab, k), d.shape@);
            &&& part is Ok
            &&& part->Ok_0[k * width + r] == all->Ok_0[at * width + r]
        }),
{
    let shape = d.shape@;
    let whole = whole_of(shape);
    let width = d.datatype@.size as nat;
    let w = width as int;
    let index = selected_index(slab, k);
    let at = ravel(index, shape);
    lemma_in_the_whole(slab, shape, k);
    the_whole_array_can_be_selected(shape);
    lemma_within_countable(slab, shape);
    lemma_within_countable(whole, shape);
    lemma_byte_of_element(k, width, r);
    lemma_byte_of_element(at, width, r);
    let (total, size) = (product(slab.count), product(shape));
    let (b, c) = (k * w + r, at * w + r);
    assert(b < total * w && c < size * w) by (nonlinear_arith)
        requires
            b == k * w + r,
            c == at * w + r,
            k + 1 <= total,
            at + 1 <= size,
            0 <= r < w,
    ;
    let part = filled_bytes(d.fill_value@, width, total * width);
    let all = filled_bytes(d.fill_value@, width, size * width);
    match d.layout@ {
        LayoutView::Compact { data } => {},
        LayoutView::Contiguous { address: None, .. } => {},
        LayoutView::Contiguous { address: Some(a), .. } => {
            lemma_part_of_contiguous(ctx, a, shape, width, slab, part, all, k, r);
        },
        LayoutView::Chunked { address, chunk_dims, index: chunk_index, .. } => {
            let dims = widened(chunk_dims);
            let records = chunks_in(
                ctx,
                address,
                chunk_index,
                shape,
                dims,
                width,
                d.pipeline@.len() > 0,
            )->Ok_0;
            lemma_part_of_chunks(ctx, d.pipeline@, dims, width, slab, shape, records, 0, part, all);
            lemma_bytes_from_chunks(ctx, d.pipeline@, dims, width, slab, records, 0, part, b);
            lemma_bytes_from_chunks(ctx, d.pipeline@, dims, width, whole, records, 0, all, c);
        },
    }
}

/// Every storage gives back as many bytes as a selection takes.
proof fn lemma_stored_len(ctx: CtxView, d: DatasetIndex, slab: SlabView)
    requires
        countable(slab),
        stored_bytes(ctx, d, slab) is Ok,
    ensures
        stored_bytes(ctx, d, slab)->Ok_0.len() == product(slab.count) * d.datatype@.size,
{
    let width = d.datatype@.size as nat;
    let out = filled_bytes(d.fill_value@, width, product(slab.count) * width);
    if out.len() > 0 {
        if let LayoutView::Chunked { address, chunk_dims, index, .. } = d.layout@ {
            let dims = widened(chunk_dims);
            let records = chunks_in(
                ctx,
                address,
                index,
                d.shape@,
                dims,
                width,
                d.pipeline@.len() > 0,
            )->Ok_0;
            assert(product(slab.count) * 0 == 0) by (nonlinear_arith);
            lemma_bytes_from_chunks(ctx, d.pipeline@, dims, width, slab, records, 0, out, 0);
        }
    }
}

/// A slice agrees with the whole: where a whole dataset can be read, so can
/// every part of it, and each element reads the same either way.
pub proof fn a_slice_agrees_with_the_whole(
    ctx: CtxView,
    d: DatasetIndex,
    slab: SlabView,
    k: int,
    r: int,
)
    requires
        ctx.image.bytes.len() <= u64::MAX,
        slab.within(d.shape@),
        0 <= k < product(slab.count),
        0 <= r < d.datatype@.size,
        hyperslab_of(ctx, d, whole_of(d.shape@)) is Ok,
    ensures
        ({
            let width = d.datatype@.size as nat;
            let part = hyperslab_of(ctx, d, slab);
            let all = hyperslab_of(ctx, d, whole_of(d.shape@));
            let at = ravel(selected_index(slab, k), d.shape@);
            &&& part is Ok
            &&& part->Ok_0.bytes.len() == product(slab.count) * width
            &&& part->Ok_0.bytes[k * width + r] == all->Ok_0.bytes[at * width + r]
        }),
{
    let shape = d.shape@;
    let whole = whole_of(shape);
    let width = d.datatype@.size as nat;
    let w = width as int;
    let at = ravel(selected_index(slab, k), shape);
    checked_selections_lie_within(slab, shape);
    the_whole_array_can_be_selected(shape);
    lemma_within_countable(slab, shape);
    lemma_within_countable(whole, shape);
    lemma_in_the_whole(slab, shape, k);
    assert forall|a: int| 0 <= a < shape.len() implies #[trigger] slab.count[a] <= shape[a] by {
        assert(slab.start[a] + slab.count[a] <= shape[a]);
    }
    lemma_product_monotonic(slab.count, shape);
    let (total, size) = (product(slab.count), product(shape));
    assert(total * width <= size * width) by (nonlinear_arith)
        requires
            total <= size,
    ;
    lemma_stored_part(ctx, d, slab, k, r);
    lemma_stored_part(ctx, d, slab, k, w - 1 - r);
    lemma_stored_len(ctx, d, slab);
    lemma_stored_len(ctx, d, whole);
    lemma_byte_of_element(k, width, r);
    lemma_byte_of_element(at, width, r);
    let (b, c) = (k * w + r, at * w + r);
    assert(b < total * w && c < size * w) by (nonlinear_arith)
        requires
            b == k * w + r,
            c == at * w + r,
            k + 1 <= total,
            at + 1 <= size,
            0 <= r < w,
    ;
}

/// An empty selection of any dataset reads as nothing, without a look at the
/// storage.
pub proof fn an_empty_selection_reads_nothing(ctx: CtxView, d: DatasetIndex, slab: SlabView)
    requires
        slab.within(d.shape@),
        product(slab.count) == 0,
    ensures
        hyperslab_of(ctx, d, slab) == Ok::<_, ErrorView>(
            RawDataView {
                bytes: Seq::empty(),
                element_size: d.datatype@.size as nat,
                shape: slab.count,
            },
        ),
{
    checked_selections_lie_within(slab, d.shape@);
    let width = d.datatype@.size as nat;
    assert(0 * width == 0) by (nonlinear_arith);
    assert(stored_bytes(ctx, d, slab)->Ok_0 =~= Seq::<u8>::empty());
    assert(in_little_order(d.datatype@, Seq::<u8>::empty()) =~= Seq::<u8>::empty());
}

/// A dataset without storage reads as its fill value throughout.
pub proof fn a_dataset_without_storage_reads_as_its_fill_value(
    ctx: CtxView,
    d: DatasetIndex,
    slab: SlabView,
)
    requires
        match d.layout@ {
            LayoutView::Compact { .. } => false,
            LayoutView::Contiguous { address, .. } => address is None,
            LayoutView::Chunked { address, chunk_dims, .. } => address is None && chunk_dims.len()
                == d.shape@.len(),
        },
    ensures
        stored_bytes(ctx, d, slab) == Ok::<_, ErrorView>(
            filled_bytes(
                d.fill_value@,
                d.datatype@.size as nat,
                product(slab.count) * d.datatype@.size as nat,
            ),
        ),
{
    if let LayoutView::Chunked { address, chunk_dims, index, .. } = d.layout@ {
        let none = Seq::<ChunkRecordView>::empty();
        assert(offsets(none) =~= Seq::<Seq<u64>>::empty());
        assert(is_ranking(offsets(none), Seq::<int>::empty()));
        assert(none =~= Seq::new(none.len(), |i: int| none[Seq::<int>::empty()[i]]));
        assert(in_offset_order(none, none));
        lemma_ordered(none, none);
    }
}

} // verus!
