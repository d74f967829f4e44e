//! The list of chunks of a dataset.

use vstd::prelude::*;

#[allow(unused_imports)]
use crate::btree1::ChunkRecordView;
#[allow(unused_imports)]
use crate::chunks::{clipped, ChunkView};
#[allow(unused_imports)]
use crate::overlay::{covers, meets, overlap, overlap_end, overlap_start};
#[allow(unused_imports)]
use crate::read::whole_of;

verus! {

/// The chunk stands at its offset, and ends where it ends or where the dataset does.
pub open spec fn is_cut_to(c: ChunkView, record: ChunkRecordView, shape: Seq<u64>, dims: Seq<u64>) -> bool {
    &&& c.offset == record.offset
    &&& c.stored_size == record.size
    &&& c.shape.len() == shape.len()
    &&& forall|a: int|
        0 <= a < shape.len() ==> {
            &&& #[trigger] c.shape[a] <= dims[a]
            &&& c.offset[a] + c.shape[a] <= shape[a]
            &&& c.shape[a] == dims[a] || c.offset[a] + c.shape[a] == shape[a]
        }
}

/// The record holds an element of the dataset.
pub open spec fn holds_element(record: ChunkRecordView, shape: Seq<u64>, dims: Seq<u64>) -> bool {
    &&& record.offset.len() == shape.len()
    &&& dims.len() == shape.len()
    &&& forall|a: int|
        0 <= a < shape.len() ==> #[trigger] record.offset[a] < shape[a] && dims[a] > 0
}

proof fn lemma_meets(record: ChunkRecordView, shape: Seq<u64>, dims: Seq<u64>)
    ensures
        meets(whole_of(shape), record.offset, dims) <==> holds_element(record, shape, dims),
        holds_element(record, shape, dims) ==> is_cut_to(
            ChunkView {
                offset: record.offset,
                shape: overlap(whole_of(shape), record.offset, dims).count,
                stored_size: record.size as u64,
            },
            record,
            shape,
            dims,
        ),
{
    let whole = whole_of(shape);
    if meets(whole, record.offset, dims) {
        assert forall|a: int| 0 <= a < shape.len() implies #[trigger] record.offset[a] < shape[a]
            && dims[a] > 0 by {
            assert(overlap_start(whole, record.offset, a) < overlap_end(
                whole,
                record.offset,
                dims,
                a,
            ));
        }
    }
    if holds_element(record, shape, dims) {
        assert forall|a: int| 0 <= a < shape.len() implies #[trigger] overlap_start(
            whole,
            record.offset,
            a,
        ) < overlap_end(whole, record.offset, dims, a) by {
            assert(record.offset[a] < shape[a]);
        }
        let count = overlap(whole, record.offset, dims).count;
        assert forall|a: int| 0 <= a < shape.len() implies {
            &&& #[trigger] count[a] <= dims[a]
            &&& record.offset[a] + count[a] <= shape[a]
            &&& count[a] == dims[a] || record.offset[a] + count[a] == shape[a]
        } by {
            assert(record.offset[a] < shape[a]);
        }
    }
}

/// The chunk with number `i` of the list is the record with number `k`, cut.
pub open spec fn lists(
    shape: Seq<u64>,
    dims: Seq<u64>,
    records: Seq<ChunkRecordView>,
    n: int,
    k: int,
    i: int,
) -> bool {
    let all = clipped(shape, dims, records, n);
    0 <= i < all.len() && is_cut_to(all[i], records[k], shape, dims)
}

/// Every record that holds an element of the dataset is listed, cut to the dataset.
pub proof fn every_stored_chunk_is_listed(
    shape: Seq<u64>,
    dims: Seq<u64>,
    records: Seq<ChunkRecordView>,
    n: int,
    k: int,
)
    requires
        0 <= k < n <= records.len(),
        holds_element(records[k], shape, dims),
    ensures
        exists|i: int| lists(shape, dims, records, n, k, i),
    decreases n,
{
    let before = clipped(shape, dims, records, n - 1);
    lemma_meets(records[n - 1], shape, dims);
    if k < n - 1 {
        every_stored_chunk_is_listed(shape, dims, records, n - 1, k);
        let m = n - 1;
        let i = choose|i: int| lists(shape, dims, records, m, k, i);
        assert(clipped(shape, dims, records, n)[i] == before[i]);
        assert(lists(shape, dims, records, n, k, i));
    } else {
        assert(lists(shape, dims, records, n, k, before.len() as int));
    }
}

/// Nothing else is listed: every chunk of the list is a record that holds an element of
/// the dataset.
pub proof fn every_listed_chunk_is_stored(
    shape: Seq<u64>,
    dims: Seq<u64>,
    records: Seq<ChunkRecordView>,
    n: int,
    i: int,
)
    requires
        0 <= n <= records.len(),
        0 <= i < clipped(shape, dims, records, n).len(),
    ensures
        exists|k: int|
            0 <= k < n && lists(shape, dims, records, n, k, i) && holds_element(
                #[trigger] records[k],
                shape,
                dims,
            ),
    decreases n,
{
    let before = clipped(shape, dims, records, n - 1);
    lemma_meets(records[n - 1], shape, dims);
    if i < before.len() {
        every_listed_chunk_is_stored(shape, dims, records, n - 1, i);
        let k = choose|k: int|
            0 <= k < n - 1 && lists(shape, dims, records, n - 1, k, i) && holds_element(
                #[trigger] records[k],
                shape,
                dims,
            );
        assert(clipped(shape, dims, records, n)[i] == before[i]);
        assert(lists(shape, dims, records, n, k, i) && holds_element(records[k], shape, dims));
    } else {
        assert(lists(shape, dims, records, n, n - 1, i) && holds_element(
            records[n - 1],
            shape,
            dims,
        ));
    }
}

/// No record is listed twice: a list has no more chunks than there are records that hold
/// an element.
pub proof fn no_chunk_is_listed_twice(
    shape: Seq<u64>,
    dims: Seq<u64>,
    records: Seq<ChunkRecordView>,
    n: int,
)
    requires
        0 < n <= records.len(),
    ensures
        clipped(shape, dims, records, n).len() == clipped(shape, dims, records, n - 1).len() + (
        if holds_element(records[n - 1], shape, dims) {
            1int
        } else {
            0int
        }),
        clipped(shape, dims, records, 0).len() == 0,
{
    lemma_meets(records[n - 1], shape, dims);
}

} // verus!
