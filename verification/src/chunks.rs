//! The chunks of a dataset, one by one.
//!
//! A chunk is a separate byte range with its own filters, so chunks can be read
//! side by side: nothing is shared between them.

#[allow(unused_imports)]
use vstd::arithmetic::div_mod::lemma_fundamental_div_mod;
use vstd::prelude::*;
use vstd::slice::slice_to_vec;

use crate::btree1::ChunkRecord;
#[allow(unused_imports)]
use crate::btree1::ChunkRecordView;
#[allow(unused_imports)]
use crate::chunk_index::{
    all_positive, chunk_grid_covers_the_shape, grid_of, lemma_offset_split, offset_of,
};
use crate::context::Ctx;
#[allow(unused_imports)]
use crate::context::CtxView;
use crate::dataset::{chunk_records, widen};
#[allow(unused_imports)]
use crate::dataset::{chunks_in, chunks_read, origin};
use crate::error::Result;
#[allow(unused_imports)]
use crate::error::ErrorView;
use crate::index::DatasetIndex;
#[allow(unused_imports)]
use crate::message::datatype::widened;
use crate::message::layout::Layout;
#[allow(unused_imports)]
use crate::message::layout::LayoutView;
use crate::overlay::find_overlap;
#[allow(unused_imports)]
use crate::overlay::{countable, covers, meets, overlap, overlap_end, overlap_start};
use crate::read::Hyperslab;
#[allow(unused_imports)]
use crate::read::{
    every_element_has_an_index, every_index_has_an_element, inside, ravel, unravel, whole_of,
    SlabView,
};
use crate::shape::checked_product;
#[allow(unused_imports)]
use crate::shape::product;
use crate::source::ByteSource;
#[allow(unused_imports)]
use crate::source::agrees;
#[allow(unused_imports)]
use crate::views::views;

verus! {

broadcast use crate::views::group_views;

/// One stored chunk of a dataset, clipped to its bounds.
#[derive(Debug, Clone, PartialEq, Eq)]
pub struct Chunk {
    /// Position of the chunk's first element.
    pub offset: Vec<u64>,
    /// Shape of the part that lies inside the dataset.
    pub shape: Vec<u64>,
    /// Stored size in bytes, after filters.
    pub stored_size: u64,
}

/// What a [`Chunk`] says.
#[verifier::ext_equal]
pub struct ChunkView {
    pub offset: Seq<u64>,
    pub shape: Seq<u64>,
    pub stored_size: u64,
}

impl View for Chunk {
    type V = ChunkView;

    open spec fn view(&self) -> ChunkView {
        ChunkView {
            offset: self.offset@,
            shape: self.shape@,
            stored_size: self.stored_size,
        }
    }
}

impl ChunkView {
    /// The selection that takes the chunk and nothing else.
    pub open spec fn selected(self) -> SlabView {
        SlabView { start: self.offset, count: self.shape }
    }
}

impl Chunk {
    /// The selection that takes the chunk and nothing else.
    pub fn selection(&self) -> (r: Hyperslab)
        ensures
            r@ == self@.selected(),
    {
        Hyperslab {
            start: slice_to_vec(self.offset.as_slice()),
            count: slice_to_vec(self.shape.as_slice()),
        }
    }

    /// Total number of elements.
    pub fn element_count(&self) -> (r: u64)
        requires
            product(self.shape@) <= u64::MAX,
        ensures
            r == product(self.shape@),
    {
        checked_product(self.shape.as_slice()).unwrap()
    }
}

/// The first `n` of the chunks that have something inside the dataset.
pub open spec fn clipped(
    shape: Seq<u64>,
    dims: Seq<u64>,
    records: Seq<ChunkRecordView>,
    n: int,
) -> Seq<ChunkView>
    decreases n,
{
    if n <= 0 {
        Seq::empty()
    } else {
        let before = clipped(shape, dims, records, n - 1);
        let record = records[n - 1];
        if meets(whole_of(shape), record.offset, dims) {
            before.push(
                ChunkView {
                    offset: record.offset,
                    shape: overlap(whole_of(shape), record.offset, dims).count,
                    stored_size: record.size as u64,
                },
            )
        } else {
            before
        }
    }
}

/// The chunks of a dataset. One that is not chunked reports a single chunk that
/// covers everything.
pub open spec fn chunks_stored(ctx: CtxView, d: DatasetIndex) -> std::result::Result<
    Seq<ChunkView>,
    ErrorView,
> {
    match d.layout@ {
        LayoutView::Chunked { address, chunk_dims, index, .. } => match chunks_in(
            ctx,
            address,
            index,
            d.shape@,
            widened(chunk_dims),
            d.datatype@.size as nat,
            d.pipeline@.len() > 0,
        ) {
            Err(e) => Err(e),
            Ok(records) => Ok(
                clipped(d.shape@, widened(chunk_dims), records, records.len() as int),
            ),
        },
        LayoutView::Contiguous { size, .. } => Ok(
            seq![ChunkView { offset: origin(d.shape@.len()), shape: d.shape@, stored_size: size }],
        ),
        LayoutView::Compact { data } => Ok(
            seq![
                ChunkView {
                    offset: origin(d.shape@.len()),
                    shape: d.shape@,
                    stored_size: data.len() as u64,
                },
            ],
        ),
    }
}

/// Whether listing the chunks of a dataset reads anything: only an index does.
pub open spec fn stored_chunks_read(ctx: CtxView, d: DatasetIndex) -> bool {
    match d.layout@ {
        LayoutView::Chunked { address, chunk_dims, index, .. } => chunks_read(
            ctx,
            address,
            index,
            d.shape@,
            widened(chunk_dims),
            d.datatype@.size as nat,
        ),
        _ => false,
    }
}

/// The one chunk of a dataset that is not chunked.
fn whole_chunk(shape: &[u64], stored_size: u64) -> (r: Vec<Chunk>)
    ensures
        views(r@) == seq![
            ChunkView { offset: origin(shape@.len()), shape: shape@, stored_size },
        ],
{
    let offset: Vec<u64> = vec![0u64; shape.len()];
    assert(offset@ =~= origin(shape@.len()));
    let mut out: Vec<Chunk> = Vec::new();
    out.push(Chunk { offset, shape: slice_to_vec(shape), stored_size });
    assert(views(out@) =~= seq![
        ChunkView { offset: origin(shape@.len()), shape: shape@, stored_size },
    ]);
    out
}

/// Every stored chunk of a dataset, clipped to its bounds.
///
/// A dataset that is not chunked reports one chunk covering everything, so a
/// caller uses one loop either way.
pub fn chunks_of<S: ByteSource + ?Sized>(ctx: Ctx<'_, S>, dataset: &DatasetIndex) -> (r: Result<
    Vec<Chunk>,
>)
    ensures
        agrees(
            match r {
                Ok(v) => Ok(views(v@)),
                Err(e) => Err(e@),
            },
            chunks_stored(ctx@, *dataset),
            ctx.dependable() || !stored_chunks_read(ctx@, *dataset),
        ),
{
    let shape = dataset.shape.as_slice();
    match &dataset.layout {
        Layout::Compact { data } => Ok(whole_chunk(shape, data.len() as u64)),
        Layout::Contiguous { size, .. } => Ok(whole_chunk(shape, *size)),
        Layout::Chunked { address, chunk_dims, index, .. } => {
            let dims = widen(chunk_dims);
            let filtered: bool = !dataset.pipeline.is_empty();
            let records = chunk_records(
                ctx,
                *address,
                index,
                shape,
                dims.as_slice(),
                dataset.datatype.size as usize,
                filtered,
            )?;
            Ok(clip(shape, dims.as_slice(), &records))
        },
    }
}

/// The chunks that have something inside the dataset.
fn clip(shape: &[u64], dims: &[u64], records: &Vec<ChunkRecord>) -> (r: Vec<Chunk>)
    ensures
        views(r@) == clipped(shape@, dims@, views(records@), records@.len() as int),
{
    let whole = Hyperslab::all(shape);
    assert(countable(whole@));
    let mut out: Vec<Chunk> = Vec::new();
    let mut n: usize = 0;
    assert(views(out@) =~= Seq::<ChunkView>::empty());
    while n < records.len()
        invariant
            n <= records@.len(),
            whole@ == whole_of(shape@),
            countable(whole@),
            views(out@) == clipped(shape@, dims@, views(records@), n as int),
        decreases records@.len() - n,
    {
        let record = &records[n];
        assert(views(records@)[n as int] == record@);
        if let Some(common) = find_overlap(&whole, record.offset.as_slice(), dims) {
            out.push(
                Chunk {
                    offset: slice_to_vec(record.offset.as_slice()),
                    shape: common.count,
                    stored_size: record.size as u64,
                },
            );
        }
        n = n + 1;
    }
    out
}

/// Every listed chunk lies within the dataset, so it can be selected.
pub proof fn every_chunk_lies_within(
    shape: Seq<u64>,
    dims: Seq<u64>,
    records: Seq<ChunkRecordView>,
    n: int,
    i: int,
)
    requires
        0 <= n <= records.len(),
        0 <= i < clipped(shape, dims, records, n).len(),
    ensures
        clipped(shape, dims, records, n)[i].selected().within(shape),
    decreases n,
{
    if n > 0 {
        let before = clipped(shape, dims, records, n - 1);
        if i < before.len() {
            every_chunk_lies_within(shape, dims, records, n - 1, i);
        } else {
            let whole = whole_of(shape);
            let offset = records[n - 1].offset;
            let slab = clipped(shape, dims, records, n)[i].selected();
            assert forall|a: int| 0 <= a < shape.len() implies #[trigger] slab.start[a]
                + slab.count[a] <= shape[a] by {
                assert(overlap_start(whole, offset, a) < overlap_end(whole, offset, dims, a));
            }
        }
    }
}

/// The offset of a chunk of the grid, axis by axis.
proof fn lemma_grid_offset(k: int, grid: Seq<u64>, dims: Seq<u64>)
    requires
        0 <= k < product(grid),
        grid.len() <= dims.len(),
        all_positive(grid),
    ensures
        offset_of(k, grid, dims).len() == grid.len(),
        forall|a: int|
            0 <= a < grid.len() ==> #[trigger] offset_of(k, grid, dims)[a] == (unravel(k, grid)[a]
                * dims[a]) as u64,
    decreases grid.len(),
{
    if grid.len() > 0 {
        let c = grid.last() as int;
        let front = grid.drop_last();
        assert(grid[grid.len() - 1] > 0);
        lemma_offset_split(k, grid, dims);
        lemma_fundamental_div_mod(k, c);
        let total = product(front) as int;
        let q = k / c;
        assert(0 <= q < total) by (nonlinear_arith)
            requires
                0 <= k < total * c,
                k == c * q + k % c,
                0 <= k % c < c,
        ;
        assert forall|a: int| 0 <= a < front.len() implies #[trigger] front[a] > 0 by {
            assert(grid[a] > 0);
        }
        lemma_grid_offset(q, front, dims);
        every_element_has_an_index(q, front);
        every_element_has_an_index(k, grid);
        assert(unravel(k, grid) == unravel(q, front).push(k % c));
        let offset = offset_of(k, grid, dims);
        let inner = offset_of(q, front, dims);
        assert forall|a: int| 0 <= a < grid.len() implies #[trigger] offset[a] == (unravel(k, grid)[a]
            * dims[a]) as u64 by {
            if a < front.len() {
                assert(offset[a] == inner[a]);
                assert(unravel(k, grid)[a] == unravel(q, front)[a]);
            }
        }
    }
}

/// Which chunks of the grid an index lies in, by the digits of their numbers.
proof fn lemma_grid_covers(k: int, shape: Seq<u64>, dims: Seq<u64>, index: Seq<int>)
    requires
        shape.len() == dims.len(),
        forall|a: int| 0 <= a < dims.len() ==> #[trigger] dims[a] > 0,
        inside(index, shape),
        0 <= k < product(grid_of(shape, dims)),
        all_positive(grid_of(shape, dims)),
    ensures
        covers(offset_of(k, grid_of(shape, dims), dims), dims, index) <==> unravel(
            k,
            grid_of(shape, dims),
        ) == Seq::new(index.len(), |a: int| index[a] / dims[a] as int),
{
    let grid = grid_of(shape, dims);
    let digits = unravel(k, grid);
    let want = Seq::new(index.len(), |a: int| index[a] / dims[a] as int);
    let offset = offset_of(k, grid, dims);
    every_element_has_an_index(k, grid);
    lemma_grid_offset(k, grid, dims);
    assert forall|a: int| 0 <= a < index.len() implies {
        &&& (offset[a] <= #[trigger] index[a] < offset[a] + dims[a]) <==> digits[a] == want[a]
    } by {
        let (x, c, q) = (index[a], dims[a] as int, digits[a]);
        assert(dims[a] > 0);
        assert(0 <= x < shape[a]);
        assert(0 <= q < grid[a]);
        chunk_grid_covers_the_shape(shape, dims, a);
        let g = grid[a] as int;
        assert(0 <= q * c <= (g - 1) * c) by (nonlinear_arith)
            requires
                0 <= q <= g - 1,
                0 < c,
        ;
        assert(offset[a] == q * c);
        lemma_fundamental_div_mod(x, c);
        let p = x / c;
        assert((q * c <= x && x < q * c + c) <==> q == p) by (nonlinear_arith)
            requires
                x == c * p + x % c,
                0 <= x % c < c,
                0 < c,
        ;
    }
    if covers(offset, dims, index) {
        assert forall|a: int| 0 <= a < index.len() implies digits[a] == want[a] by {
            assert(offset[a] <= index[a] < offset[a] + dims[a]);
        }
        assert(digits =~= want);
    }
    if digits == want {
        assert forall|a: int| 0 <= a < index.len() implies offset[a] <= #[trigger] index[a]
            < offset[a] + dims[a] by {
            assert(digits[a] == want[a]);
        }
    }
}

/// The chunks of the grid tile the dataset: every element lies in exactly one.
pub proof fn every_element_lies_in_exactly_one_chunk(
    shape: Seq<u64>,
    dims: Seq<u64>,
    index: Seq<int>,
) -> (k: int)
    requires
        shape.len() == dims.len(),
        forall|a: int| 0 <= a < dims.len() ==> #[trigger] dims[a] > 0,
        inside(index, shape),
    ensures
        0 <= k < product(grid_of(shape, dims)),
        covers(offset_of(k, grid_of(shape, dims), dims), dims, index),
        forall|other: int|
            0 <= other < product(grid_of(shape, dims)) && covers(
                #[trigger] offset_of(other, grid_of(shape, dims), dims),
                dims,
                index,
            ) ==> other == k,
{
    let grid = grid_of(shape, dims);
    let digits = Seq::new(index.len(), |a: int| index[a] / dims[a] as int);
    assert forall|a: int| 0 <= a < grid.len() implies 0 <= #[trigger] digits[a] < grid[a] by {
        let (x, c) = (index[a], dims[a] as int);
        assert(dims[a] > 0);
        assert(0 <= x < shape[a]);
        chunk_grid_covers_the_shape(shape, dims, a);
        lemma_fundamental_div_mod(x, c);
        let (p, g) = (x / c, grid[a] as int);
        assert(0 <= p < g) by (nonlinear_arith)
            requires
                0 <= x < g * c,
                x == c * p + x % c,
                0 <= x % c < c,
        ;
    }
    assert(all_positive(grid)) by {
        assert forall|a: int| 0 <= a < grid.len() implies #[trigger] grid[a] > 0 by {
            assert(0 <= digits[a] < grid[a]);
        }
    }
    every_index_has_an_element(digits, grid);
    let k = ravel(digits, grid);
    lemma_grid_covers(k, shape, dims, index);
    assert forall|other: int|
        0 <= other < product(grid) && covers(
            #[trigger] offset_of(other, grid, dims),
            dims,
            index,
        ) implies other == k by {
        lemma_grid_covers(other, shape, dims, index);
        every_element_has_an_index(other, grid);
    }
    k
}

} // verus!
