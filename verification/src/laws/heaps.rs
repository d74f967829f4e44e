//! Values of variable length: what a heap gives back.

use vstd::prelude::*;

#[allow(unused_imports)]
use crate::bytes::{pow256, utf8_lossy};
#[allow(unused_imports)]
use crate::context::CtxView;
#[allow(unused_imports)]
use crate::cursor::{first_zero, value_of, Parse, Sizes};
#[allow(unused_imports)]
use crate::error::ErrorView;
#[allow(unused_imports)]
use crate::heap::{
    descriptor_at, descriptor_len, heap_at, heap_size_of, object_at, object_of, objects_from,
    sequence_of, sequences_from, string_of, strings_from, HeapObjectView, VlenDescriptor,
};
#[allow(unused_imports)]
use crate::laws::writing::{
    blank, holds, le, lemma_blank_len, lemma_holds_both, lemma_holds_one, lemma_holds_taken,
    lemma_holds_u16, lemma_holds_u32, lemma_holds_uint, lemma_le_len, lemma_stands, stands_at,
};

verus! {

// ── descriptors ────────────────────────────────────────────────────────────

/// A descriptor: how long the value is, which collection holds it, and which object of
/// that collection it is.
pub open spec fn descriptor_written(d: VlenDescriptor, sizes: Sizes) -> Seq<u8> {
    le(d.length as nat, 4) + (le(d.collection_address as nat, sizes.offset as nat) + le(
        d.object_index as nat,
        4,
    ))
}

/// A descriptor comes back as it was written.
pub proof fn a_descriptor_reads_as_it_was_written(
    b: Seq<u8>,
    p: int,
    d: VlenDescriptor,
    sizes: Sizes,
)
    requires
        0 < sizes.offset <= 8,
        d.collection_address < pow256(sizes.offset as nat),
        holds(b, p, descriptor_written(d, sizes)),
    ensures
        descriptor_at(b, p, sizes) == Parse::<VlenDescriptor>::Ok((d, p + 8 + sizes.offset)),
        descriptor_written(d, sizes).len() == 8 + sizes.offset,
        descriptor_len(sizes) == 8 + sizes.offset,
{
    let w = sizes.offset as nat;
    let (x, y, z) = (
        le(d.length as nat, 4),
        le(d.collection_address as nat, w),
        le(d.object_index as nat, 4),
    );
    lemma_le_len(d.length as nat, 4);
    lemma_le_len(d.collection_address as nat, w);
    lemma_le_len(d.object_index as nat, 4);
    lemma_holds_both(b, p, x, y + z);
    lemma_holds_u32(b, p, d.length as nat);
    lemma_holds_both(b, p + 4, y, z);
    lemma_holds_uint(b, p + 4, d.collection_address as nat, sizes.offset);
    lemma_holds_u32(b, p + 4 + w, d.object_index as nat);
}

// ── collections ────────────────────────────────────────────────────────────

/// An object of a collection: its number, how often it is referred to, its size, its
/// bytes, and what fills them up to a multiple of eight.
pub open spec fn object_written(o: HeapObjectView, count: Seq<u8>, sizes: Sizes) -> Seq<u8> {
    le(o.index as nat, 2) + (count + (le(o.data.len(), sizes.length as nat) + (o.data + blank(
        ((8 - o.data.len() % 8) % 8) as nat,
    ))))
}

/// Objects one behind the other.
pub open spec fn objects_written(
    os: Seq<HeapObjectView>,
    count: Seq<u8>,
    sizes: Sizes,
) -> Seq<u8>
    decreases os.len(),
{
    if os.len() == 0 {
        Seq::empty()
    } else {
        object_written(os[0], count, sizes) + objects_written(os.skip(1), count, sizes)
    }
}

/// The objects can be written.
pub open spec fn objects_fit(os: Seq<HeapObjectView>, count: Seq<u8>, sizes: Sizes) -> bool {
    &&& count.len() == 6
    &&& 0 < sizes.length <= 8
    &&& forall|i: int|
        0 <= i < os.len() ==> (#[trigger] os[i]).index != 0 && os[i].data.len() < pow256(
            sizes.length as nat,
        ) && os[i].data.len() <= u64::MAX
}

/// A collection: its signature, its version, its size, its objects, and free space,
/// which starts with the number zero where there is room for it.
pub open spec fn collection_written(
    os: Seq<HeapObjectView>,
    count: Seq<u8>,
    reserved: Seq<u8>,
    free: Seq<u8>,
    sizes: Sizes,
) -> Seq<u8> {
    let body = objects_written(os, count, sizes) + free;
    seq![0x47u8, 0x43u8, 0x4fu8, 0x4cu8] + (seq![1u8] + (reserved + (le(
        8 + sizes.length as nat + body.len(),
        sizes.length as nat,
    ) + body)))
}

proof fn lemma_object(b: Seq<u8>, p: int, o: HeapObjectView, count: Seq<u8>, sizes: Sizes)
    requires
        count.len() == 6,
        0 < sizes.length <= 8,
        o.index != 0,
        o.data.len() < pow256(sizes.length as nat),
        o.data.len() <= u64::MAX,
        holds(b, p, object_written(o, count, sizes)),
    ensures
        ({
            let end = p + 8 + sizes.length + o.data.len();
            let pad = (8 - o.data.len() as int % 8) % 8;
            &&& object_at(b, p, sizes) == Parse::<Option<HeapObjectView>>::Ok((Some(o), end))
            &&& end + pad == p + object_written(o, count, sizes).len()
            &&& end + pad <= b.len()
        }),
{
    let w = sizes.length as nat;
    let pad = blank(((8 - o.data.len() % 8) % 8) as nat);
    let n = le(o.data.len(), w);
    lemma_le_len(o.index as nat, 2);
    lemma_le_len(o.data.len(), w);
    lemma_blank_len(((8 - o.data.len() % 8) % 8) as nat);
    lemma_holds_both(b, p, le(o.index as nat, 2), count + (n + (o.data + pad)));
    lemma_holds_u16(b, p, o.index as nat);
    lemma_holds_both(b, p + 2, count, n + (o.data + pad));
    lemma_holds_taken(b, p + 2, count);
    lemma_holds_both(b, p + 8, n, o.data + pad);
    lemma_holds_uint(b, p + 8, o.data.len(), sizes.length);
    lemma_holds_both(b, p + 8 + w, o.data, pad);
    lemma_holds_taken(b, p + 8 + w, o.data);
}

proof fn lemma_objects(
    b: Seq<u8>,
    p: int,
    os: Seq<HeapObjectView>,
    count: Seq<u8>,
    free: Seq<u8>,
    sizes: Sizes,
    out: Seq<HeapObjectView>,
)
    requires
        objects_fit(os, count, sizes),
        holds(b, p, objects_written(os, count, sizes) + free),
        b.len() == p + (objects_written(os, count, sizes) + free).len(),
        free.len() < 8 + sizes.length || (free[0] == 0 && free[1] == 0),
    ensures
        value_of(objects_from(b, p, sizes, out)) == std::result::Result::<
            Seq<HeapObjectView>,
            ErrorView,
        >::Ok(out + os),
    decreases os.len(),
{
    lemma_holds_both(b, p, objects_written(os, count, sizes), free);
    if os.len() > 0 {
        let o = os[0];
        let rest = os.skip(1);
        let first = object_written(o, count, sizes);
        let tail = objects_written(rest, count, sizes);
        assert(o.index != 0);
        lemma_holds_both(b, p, first, tail);
        lemma_object(b, p, o, count, sizes);
        let q = p + first.len();
        assert((first + tail) + free =~= first + (tail + free));
        lemma_holds_both(b, p, first, tail + free);
        assert(objects_fit(rest, count, sizes)) by {
            assert forall|i: int| 0 <= i < rest.len() implies (#[trigger] rest[i]).index != 0
                && rest[i].data.len() < pow256(sizes.length as nat) && rest[i].data.len()
                <= u64::MAX by {
                assert(os[i + 1].index != 0);
            }
        }
        let more = out.push(o);
        lemma_objects(b, q, rest, count, free, sizes, more);
        assert(more + rest =~= out + os);
    } else {
        assert(out + os =~= out);
        if free.len() >= 8 + sizes.length {
            let z = le(0, 2);
            reveal_with_fuel(le, 3);
            assert(z =~= seq![0u8, 0u8]);
            assert(b.subrange(p, p + 2) =~= z) by {
                let f = b.subrange(p, p + free.len() as int);
                assert(f[0] == b[p] && f[1] == b[p + 1]);
            }
            assert(holds(b, p, z));
            lemma_holds_u16(b, p, 0);
        }
    }
}

/// A collection gives back every object that was written to it, in order.
pub proof fn a_collection_reads_as_it_was_written(
    ctx: CtxView,
    at: u64,
    os: Seq<HeapObjectView>,
    count: Seq<u8>,
    reserved: Seq<u8>,
    free: Seq<u8>,
)
    requires
        objects_fit(os, count, ctx.sizes()),
        reserved.len() == 3,
        free.len() < 8 + ctx.sizes().length || (free[0] == 0 && free[1] == 0),
        collection_written(os, count, reserved, free, ctx.sizes()).len() < pow256(
            ctx.sizes().length as nat,
        ),
        stands_at(ctx, at, collection_written(os, count, reserved, free, ctx.sizes())),
    ensures
        heap_at(ctx, at) == std::result::Result::<Seq<HeapObjectView>, ErrorView>::Ok(os),
{
    let sizes = ctx.sizes();
    let w = sizes.length as nat;
    let body = objects_written(os, count, sizes) + free;
    let total = 8 + w + body.len();
    let b = collection_written(os, count, reserved, free, sizes);
    let sig = seq![0x47u8, 0x43u8, 0x4fu8, 0x4cu8];
    let n = le(total, w);
    lemma_le_len(total, w);
    assert(crate::heap::HEAP_SIGNATURE@ =~= sig);
    assert(b.len() == total);
    lemma_stands(ctx, at, b);
    let head = ctx.fetch(at, 8 + w as int)->Ok_0;
    assert(ctx.fetch(at, 8 + w as int) is Ok);
    assert(head =~= b.take(8 + w as int));
    let t = sig + (seq![1u8] + (reserved + n));
    assert(head.subrange(0, 8 + w as int) =~= t) by {
        assert(b =~= t + body);
    }
    assert(holds(head, 0, t));
    lemma_holds_both(head, 0, sig, seq![1u8] + (reserved + n));
    lemma_holds_taken(head, 0, sig);
    lemma_holds_both(head, 4, seq![1u8], reserved + n);
    lemma_holds_one(head, 4, 1);
    lemma_holds_both(head, 5, reserved, n);
    lemma_holds_taken(head, 5, reserved);
    lemma_holds_uint(head, 8, total, sizes.length);
    assert(b.subrange(8 + w as int, b.len() as int) =~= body) by {
        assert(b =~= t + body);
    }
    assert(holds(b, 8 + w as int, body));
    lemma_objects(b, 8 + w as int, os, count, free, sizes, Seq::empty());
    assert(Seq::<HeapObjectView>::empty() + os =~= os);
}

/// An object is found by its number.
pub proof fn an_object_is_found_by_its_number(heap: Seq<HeapObjectView>, index: u16, i: int, k: int)
    requires
        0 <= k <= i < heap.len(),
        heap[i].index == index,
        forall|j: int| k <= j < i ==> (#[trigger] heap[j]).index != index,
    ensures
        object_of(heap, index, k) == Some(heap[i].data),
    decreases i - k,
{
    if k < i {
        assert(heap[k].index != index);
        an_object_is_found_by_its_number(heap, index, i, k + 1);
    }
}

/// A number that no object has finds none.
pub proof fn a_missing_object_is_not_found(heap: Seq<HeapObjectView>, index: u16, k: int)
    requires
        0 <= k,
        forall|j: int| k <= j < heap.len() ==> (#[trigger] heap[j]).index != index,
    ensures
        object_of(heap, index, k) is None,
    decreases heap.len() - k,
{
    if k < heap.len() {
        assert(heap[k].index != index);
        a_missing_object_is_not_found(heap, index, k + 1);
    }
}

// ── strings and sequences ──────────────────────────────────────────────────

/// The characters of a string stop at its length and at its first zero.
pub proof fn a_string_is_what_its_object_holds(
    ctx: CtxView,
    owner: Seq<char>,
    d: VlenDescriptor,
    heap: Seq<HeapObjectView>,
    text: Seq<u8>,
    rest: Seq<u8>,
    i: int,
)
    requires
        0 < d.length,
        text.len() <= d.length,
        text.len() == d.length || rest.len() == 0 || rest[0] == 0,
        forall|j: int| 0 <= j < text.len() ==> #[trigger] text[j] != 0,
        d.object_index <= u16::MAX,
        heap_at(ctx, d.collection_address) == std::result::Result::<
            Seq<HeapObjectView>,
            ErrorView,
        >::Ok(heap),
        0 <= i < heap.len(),
        heap[i].index == d.object_index,
        heap[i].data == text + rest,
        forall|j: int| 0 <= j < i ==> (#[trigger] heap[j]).index != d.object_index,
    ensures
        string_of(ctx, owner, d) == std::result::Result::<Seq<char>, ErrorView>::Ok(
            utf8_lossy(text),
        ),
{
    an_object_is_found_by_its_number(heap, d.object_index as u16, i, 0);
    let data = heap[i].data;
    let kept = if data.len() < d.length {
        data
    } else {
        data.take(d.length as int)
    };
    lemma_text_end(kept, text, 0);
    assert(kept.take(text.len() as int) =~= text);
}

proof fn lemma_text_end(kept: Seq<u8>, text: Seq<u8>, p: int)
    requires
        0 <= p <= text.len() <= kept.len(),
        forall|j: int| 0 <= j < text.len() ==> #[trigger] kept[j] == text[j],
        forall|j: int| 0 <= j < text.len() ==> #[trigger] text[j] != 0,
        text.len() == kept.len() || kept[text.len() as int] == 0,
    ensures
        first_zero(kept, p) == text.len(),
    decreases text.len() - p,
{
    if p < text.len() {
        assert(kept[p] == text[p]);
        lemma_text_end(kept, text, p + 1);
    }
}

/// A value of length zero is empty, whatever else its descriptor says.
pub proof fn an_empty_value_needs_no_object(
    ctx: CtxView,
    owner: Seq<char>,
    width: nat,
    d: VlenDescriptor,
)
    requires
        d.length == 0,
    ensures
        string_of(ctx, owner, d) matches Ok(s) && s.len() == 0,
        sequence_of(ctx, owner, width, d) matches Ok(s) && s.len() == 0,
{
}

/// A sequence is as many elements of its object as its length says.
pub proof fn a_sequence_is_what_its_object_holds(
    ctx: CtxView,
    owner: Seq<char>,
    width: nat,
    d: VlenDescriptor,
    heap: Seq<HeapObjectView>,
    items: Seq<u8>,
    rest: Seq<u8>,
    i: int,
)
    requires
        0 < d.length,
        items.len() == d.length * width,
        d.object_index <= u16::MAX,
        heap_at(ctx, d.collection_address) == std::result::Result::<
            Seq<HeapObjectView>,
            ErrorView,
        >::Ok(heap),
        0 <= i < heap.len(),
        heap[i].index == d.object_index,
        heap[i].data == items + rest,
        forall|j: int| 0 <= j < i ==> (#[trigger] heap[j]).index != d.object_index,
    ensures
        sequence_of(ctx, owner, width, d) == std::result::Result::<Seq<u8>, ErrorView>::Ok(items),
{
    an_object_is_found_by_its_number(heap, d.object_index as u16, i, 0);
    assert(heap[i].data.take(d.length * width) =~= items);
}

proof fn lemma_strings(
    ctx: CtxView,
    owner: Seq<char>,
    data: Seq<u8>,
    count: nat,
    out: Seq<Seq<char>>,
    k: int,
)
    requires
        strings_from(ctx, owner, data, count, out) is Ok,
        out.len() <= count,
        0 <= k < count,
    ensures
        ({
            let all = strings_from(ctx, owner, data, count, out)->Ok_0;
            &&& all.len() == count
            &&& k < out.len() ==> all[k] == out[k]
            &&& k >= out.len() ==> (value_of(
                descriptor_at(data, k * (8 + ctx.sizes().offset), ctx.sizes()),
            ) matches Ok(d) && string_of(ctx, owner, d) == std::result::Result::<
                Seq<char>,
                ErrorView,
            >::Ok(all[k]))
        }),
    decreases count - out.len(),
{
    if out.len() < count {
        let n = out.len() as int;
        let d = value_of(
            descriptor_at(data, n * (8 + ctx.sizes().offset), ctx.sizes()),
        )->Ok_0;
        let s = string_of(ctx, owner, d)->Ok_0;
        lemma_strings(ctx, owner, data, count, out.push(s), k);
        if k == n {
            assert(out.push(s)[k] == s);
        }
    }
}

/// String `k` is the one that descriptor `k` names: descriptors stand one behind the
/// other.
pub proof fn each_string_has_its_descriptor(
    ctx: CtxView,
    owner: Seq<char>,
    data: Seq<u8>,
    count: nat,
    k: int,
)
    requires
        strings_from(ctx, owner, data, count, Seq::empty()) is Ok,
        0 <= k < count,
    ensures
        ({
            let all = strings_from(ctx, owner, data, count, Seq::empty())->Ok_0;
            &&& all.len() == count
            &&& (value_of(
                descriptor_at(data, k * (8 + ctx.sizes().offset), ctx.sizes()),
            ) matches Ok(d) && string_of(ctx, owner, d) == std::result::Result::<
                Seq<char>,
                ErrorView,
            >::Ok(all[k]))
        }),
{
    lemma_strings(ctx, owner, data, count, Seq::empty(), k);
}

proof fn lemma_sequences(
    ctx: CtxView,
    owner: Seq<char>,
    width: nat,
    data: Seq<u8>,
    count: nat,
    out: Seq<Seq<u8>>,
    k: int,
)
    requires
        sequences_from(ctx, owner, width, data, count, out) is Ok,
        out.len() <= count,
        0 <= k < count,
    ensures
        ({
            let all = sequences_from(ctx, owner, width, data, count, out)->Ok_0;
            &&& all.len() == count
            &&& k < out.len() ==> all[k] == out[k]
            &&& k >= out.len() ==> (value_of(
                descriptor_at(data, k * (8 + ctx.sizes().offset), ctx.sizes()),
            ) matches Ok(d) && sequence_of(ctx, owner, width, d) == std::result::Result::<
                Seq<u8>,
                ErrorView,
            >::Ok(all[k]))
        }),
    decreases count - out.len(),
{
    if out.len() < count {
        let n = out.len() as int;
        let d = value_of(
            descriptor_at(data, n * (8 + ctx.sizes().offset), ctx.sizes()),
        )->Ok_0;
        let s = sequence_of(ctx, owner, width, d)->Ok_0;
        lemma_sequences(ctx, owner, width, data, count, out.push(s), k);
        if k == n {
            assert(out.push(s)[k] == s);
        }
    }
}

/// Sequence `k` is the one that descriptor `k` names.
pub proof fn each_sequence_has_its_descriptor(
    ctx: CtxView,
    owner: Seq<char>,
    width: nat,
    data: Seq<u8>,
    count: nat,
    k: int,
)
    requires
        sequences_from(ctx, owner, width, data, count, Seq::empty()) is Ok,
        0 <= k < count,
    ensures
        ({
            let all = sequences_from(ctx, owner, width, data, count, Seq::empty())->Ok_0;
            &&& all.len() == count
            &&& (value_of(
                descriptor_at(data, k * (8 + ctx.sizes().offset), ctx.sizes()),
            ) matches Ok(d) && sequence_of(ctx, owner, width, d) == std::result::Result::<
                Seq<u8>,
                ErrorView,
            >::Ok(all[k]))
        }),
{
    lemma_sequences(ctx, owner, width, data, count, Seq::empty(), k);
}

} // verus!
