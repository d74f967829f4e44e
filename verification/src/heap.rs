//! The global heap: where values of varying length live.
//!
//! An element of a variable-length type stores a descriptor: how many items
//! there are, and which object of which heap collection holds them. A
//! collection is one block of the file with many small objects in it.

use std::collections::HashMap;

use vstd::prelude::*;
use vstd::slice::{slice_subrange, slice_to_vec};

use crate::bytes::{lossy_text, same_bytes};
#[allow(unused_imports)]
use crate::bytes::utf8_lossy;
use crate::context::Ctx;
#[allow(unused_imports)]
use crate::context::CtxView;
use crate::cursor::{position_of_zero, Cursor, Sizes};
#[allow(unused_imports)]
use crate::cursor::{
    first_zero, lemma_first_zero, length_at, skip_at, take_at, u16_at, u32_at, u8_at, uint_at,
    value_of, Parse,
};
use crate::error::{Error, Result};
#[allow(unused_imports)]
use crate::error::{seen, ErrorView};
use crate::source::ByteSource;
#[allow(unused_imports)]
use crate::source::agrees;
use crate::text::{add_text, joined, numbered};
#[allow(unused_imports)]
use crate::text::decimal;
#[allow(unused_imports)]
use crate::views::views;

verus! {

broadcast use {crate::views::group_views, vstd::std_specs::hash::group_hash_axioms};

/// The signature of a heap collection.
pub const HEAP_SIGNATURE: [u8; 4] = [0x47, 0x43, 0x4f, 0x4c];

// ── descriptors ────────────────────────────────────────────────────────────

/// Where the items of one variable-length element live.
#[derive(Debug, Clone, Copy, PartialEq, Eq, Structural)]
pub struct VlenDescriptor {
    /// Number of items.
    pub length: u32,
    /// Address of the heap collection.
    pub collection_address: u64,
    /// Number of the object within the collection.
    pub object_index: u32,
}

impl View for VlenDescriptor {
    type V = VlenDescriptor;

    open spec fn view(&self) -> VlenDescriptor {
        *self
    }
}

/// Bytes that one descriptor takes.
pub open spec fn descriptor_len(sizes: Sizes) -> nat {
    8 + sizes.offset as nat
}

/// A descriptor: the number of items, the collection and the object.
pub open spec fn descriptor_at(b: Seq<u8>, p: int, sizes: Sizes) -> Parse<VlenDescriptor> {
    match u32_at(b, p) {
        Err(e) => Err(e),
        Ok((length, p)) => match uint_at(b, p, sizes.offset) {
            Err(e) => Err(e),
            Ok((collection_address, p)) => match u32_at(b, p) {
                Err(e) => Err(e),
                Ok((object_index, p)) => Ok(
                    (VlenDescriptor { length, collection_address, object_index }, p),
                ),
            },
        },
    }
}

impl VlenDescriptor {
    /// Bytes that one descriptor takes.
    pub fn encoded_len(sizes: Sizes) -> (r: usize)
        ensures
            r == descriptor_len(sizes),
    {
        8 + sizes.offset as usize
    }

    /// Parse a descriptor that stands at the start of `data`.
    pub fn parse(data: &[u8], sizes: Sizes) -> (r: Result<Self>)
        ensures
            seen(r) == value_of(descriptor_at(data@, 0, sizes)),
    {
        let mut cur = Cursor::new(data);
        let length: u32 = cur.u32()?;
        let collection_address: u64 = cur.uint(sizes.offset)?;
        let object_index: u32 = cur.u32()?;
        Ok(VlenDescriptor { length, collection_address, object_index })
    }
}

// ── collections ────────────────────────────────────────────────────────────

/// One object of a heap collection.
#[derive(Debug, Clone, PartialEq, Eq)]
pub struct HeapObject {
    /// Number of the object within its collection.
    pub index: u16,
    /// The bytes of the object.
    pub data: Vec<u8>,
}

/// What a [`HeapObject`] holds.
#[verifier::ext_equal]
pub struct HeapObjectView {
    pub index: u16,
    pub data: Seq<u8>,
}

impl View for HeapObject {
    type V = HeapObjectView;

    open spec fn view(&self) -> HeapObjectView {
        HeapObjectView { index: self.index, data: self.data@ }
    }
}

/// A heap collection, read whole.
#[derive(Debug, Clone, PartialEq, Eq)]
pub struct GlobalHeap {
    /// The objects, in file order.
    pub objects: Vec<HeapObject>,
}

impl View for GlobalHeap {
    type V = Seq<HeapObjectView>;

    open spec fn view(&self) -> Seq<HeapObjectView> {
        views(self.objects@)
    }
}

/// One object: its number, two fields that a reader does not need, its size and
/// its bytes. Number zero marks the free space that ends a collection.
pub open spec fn object_at(b: Seq<u8>, p: int, sizes: Sizes) -> Parse<Option<HeapObjectView>> {
    match u16_at(b, p) {
        Err(e) => Err(e),
        Ok((index, p)) => if index == 0 {
            Ok((None, p))
        } else {
            match skip_at(b, p, 6) {
                Err(e) => Err(e),
                Ok((_, p)) => match length_at(b, p, sizes) {
                    Err(e) => Err(e),
                    Ok((size, p)) => match take_at(b, p, size as int) {
                        Err(e) => Err(e),
                        Ok((data, p)) => Ok((Some(HeapObjectView { index, data }), p)),
                    },
                },
            }
        },
    }
}

/// The objects from `p` on, after those in `out`. Each is padded to a multiple
/// of eight bytes. The list ends at the free space, or where no room is left.
pub open spec fn objects_from(b: Seq<u8>, p: int, sizes: Sizes, out: Seq<HeapObjectView>) -> Parse<
    Seq<HeapObjectView>,
>
    decreases (if b.len() > p { b.len() - p } else { 0 }),
{
    if p + 8 + sizes.length > b.len() {
        Ok((out, p))
    } else {
        match object_at(b, p, sizes) {
            Err(e) => Err(e),
            Ok((None, q)) => Ok((out, q)),
            Ok((Some(object), q)) => {
                let next = q + (8 - object.data.len() as int % 8) % 8;
                if next <= p {
                    Err((ErrorView::Incomplete, p))
                } else {
                    objects_from(b, next, sizes, out.push(object))
                }
            },
        }
    }
}

/// The head of a collection: its signature, its version and its size.
pub open spec fn heap_size_of(b: Seq<u8>, sizes: Sizes) -> std::result::Result<u64, ErrorView> {
    match take_at(b, 0, 4) {
        Err((e, _)) => Err(e),
        Ok((signature, p)) => if signature != HEAP_SIGNATURE@ {
            Err(ErrorView::Malformed("global heap collection signature"@))
        } else {
            match u8_at(b, p) {
                Err((e, _)) => Err(e),
                Ok((version, p)) => if version != 1 {
                    Err(
                        ErrorView::Unsupported(
                            "global heap collection version "@ + decimal(version as nat),
                        ),
                    )
                } else {
                    match skip_at(b, p, 3) {
                        Err((e, _)) => Err(e),
                        Ok((_, p)) => value_of(length_at(b, p, sizes)),
                    }
                },
            }
        },
    }
}

/// Whether reading the collection at an address reads anything: its header lies in
/// the file.
pub open spec fn heap_reads(ctx: CtxView, address: u64) -> bool {
    ctx.fetch(address, 8 + ctx.sizes().length) is Ok
}

/// The collection at an address.
pub open spec fn heap_at(ctx: CtxView, address: u64) -> std::result::Result<
    Seq<HeapObjectView>,
    ErrorView,
> {
    let head = 8 + ctx.sizes().length;
    match ctx.fetch(address, head) {
        Err(e) => Err(e),
        Ok(b) => match heap_size_of(b, ctx.sizes()) {
            Err(e) => Err(e),
            Ok(size) => if size < head {
                Err(ErrorView::Malformed("global heap collection is shorter than its header"@))
            } else {
                match ctx.fetch(address, size as int) {
                    Err(e) => Err(e),
                    Ok(b) => value_of(objects_from(b, head, ctx.sizes(), Seq::empty())),
                }
            },
        },
    }
}

/// The first object of that number.
pub open spec fn object_of(heap: Seq<HeapObjectView>, index: u16, i: int) -> Option<Seq<u8>>
    decreases heap.len() - i,
{
    if i >= heap.len() {
        None
    } else if heap[i].index == index {
        Some(heap[i].data)
    } else {
        object_of(heap, index, i + 1)
    }
}

fn read_object(cur: &mut Cursor<'_>, sizes: Sizes) -> (r: Result<Option<HeapObject>>)
    ensures
        final(cur).moved(
            *old(cur),
            match r {
                Ok(Some(o)) => Ok(Some(o@)),
                Ok(None) => Ok(None),
                Err(e) => Err(e@),
            },
            object_at(old(cur).buf@, old(cur).pos as int, sizes),
        ),
{
    let index: u16 = cur.u16()?;
    if index == 0 {
        return Ok(None);
    }
    cur.skip(6)?;
    let size: u64 = cur.length(sizes)?;
    let data = cur.take_long(size)?;
    Ok(Some(HeapObject { index, data: slice_to_vec(data) }))
}

/// An object that was read ends behind its own start.
proof fn lemma_object_moves(b: Seq<u8>, p: int, sizes: Sizes)
    requires
        0 <= p,
    ensures
        object_at(b, p, sizes) matches Ok((Some(o), q)) ==> p + 8 + o.data.len() <= q <= b.len(),
{
    match u16_at(b, p) {
        Ok((_, p)) => match skip_at(b, p, 6) {
            Ok((_, p)) => match length_at(b, p, sizes) {
                Ok((size, q)) => {},
                Err(_) => {},
            },
            Err(_) => {},
        },
        Err(_) => {},
    }
}

fn parse_objects(b: &[u8], start: usize, sizes: Sizes) -> (r: Result<Vec<HeapObject>>)
    requires
        start <= b@.len(),
    ensures
        match r {
            Ok(v) => value_of(objects_from(b@, start as int, sizes, Seq::empty())) == Ok::<
                _,
                ErrorView,
            >(views(v@)),
            Err(e) => value_of(objects_from(b@, start as int, sizes, Seq::empty())) == Err::<
                Seq<HeapObjectView>,
                _,
            >(e@),
        },
{
    let ghost want = value_of(objects_from(b@, start as int, sizes, Seq::empty()));
    let mut out: Vec<HeapObject> = Vec::new();
    let mut pos: usize = start;
    let room: usize = 8 + sizes.length as usize;
    assert(b.len() <= usize::MAX);
    while pos <= b.len() && room <= b.len() - pos
        invariant
            room == 8 + sizes.length,
            b@.len() <= usize::MAX,
            want == value_of(objects_from(b@, start as int, sizes, Seq::empty())),
            want == value_of(objects_from(b@, pos as int, sizes, views(out@))),
        decreases (if b@.len() > pos { b@.len() - pos } else { 0 }),
    {
        proof {
            lemma_object_moves(b@, pos as int, sizes);
        }
        let mut cur = Cursor::at(b, pos);
        match read_object(&mut cur, sizes)? {
            None => {
                return Ok(out);
            },
            Some(object) => {
                let pad: usize = (8 - object.data.len() % 8) % 8;
                out.push(object);
                if pad > b.len() - cur.pos() {
                    assert(value_of(objects_from(b@, cur.pos + pad, sizes, views(out@))) == Ok::<
                        _,
                        ErrorView,
                    >(views(out@)));
                    // The padding runs past the end, so nothing follows.
                    return Ok(out);
                }
                pos = cur.pos() + pad;
            },
        }
    }
    Ok(out)
}

impl GlobalHeap {
    /// Read the collection at an address.
    pub fn read<S: ByteSource + ?Sized>(ctx: Ctx<'_, S>, address: u64) -> (r: Result<Self>)
        ensures
            agrees(seen(r), heap_at(ctx@, address), ctx.dependable() || !heap_reads(ctx@, address)),
    {
        let sizes: Sizes = ctx.sizes();
        let head: u64 = 8 + sizes.length as u64;
        let front = ctx.read(address, head)?;
        let mut cur = Cursor::new(front.as_slice());
        let signature = cur.take(4)?;
        if !same_bytes(signature, HEAP_SIGNATURE.as_slice()) {
            return Err(Error::malformed("global heap collection signature"));
        }
        let version: u8 = cur.u8()?;
        if version != 1 {
            return Err(
                Error::Unsupported(numbered("global heap collection version ", version as u64)),
            );
        }
        cur.skip(3)?;
        let size: u64 = cur.length(sizes)?;
        if size < head {
            return Err(Error::malformed("global heap collection is shorter than its header"));
        }
        let body = ctx.read(address, size)?;
        let objects = parse_objects(body.as_slice(), head as usize, sizes)?;
        Ok(GlobalHeap { objects })
    }

    /// One object by number.
    pub fn object(&self, index: u16) -> (r: Option<&HeapObject>)
        ensures
            match object_of(self@, index, 0) {
                Some(data) => r is Some && r->Some_0.data@ == data,
                None => r is None,
            },
    {
        let mut i: usize = 0;
        while i < self.objects.len()
            invariant
                i <= self.objects@.len(),
                object_of(self@, index, 0) == object_of(self@, index, i as int),
            decreases self.objects@.len() - i,
        {
            if self.objects[i].index == index {
                return Some(&self.objects[i]);
            }
            i = i + 1;
        }
        None
    }
}

// ── collections already read ───────────────────────────────────────────────

/// Heap collections already read, keyed by address.
///
/// One collection usually serves every `DIMENSION_LIST` in a file, so caching
/// turns a per-variable read into a single one.
pub struct HeapCache {
    /// The collections.
    pub collections: HashMap<u64, GlobalHeap>,
}

impl HeapCache {
    /// Every collection kept is what the file holds at its address.
    pub open spec fn faithful(&self, ctx: CtxView) -> bool {
        forall|a: u64| #[trigger]
            self.collections@.contains_key(a) ==> heap_at(ctx, a) == Ok::<_, ErrorView>(
                self.collections@[a]@,
            )
    }

    /// A cache that holds nothing yet.
    pub fn new() -> (r: Self)
        ensures
            forall|ctx: CtxView| r.faithful(ctx),
    {
        HeapCache { collections: HashMap::new() }
    }

    /// Read a collection, unless it was read before.
    pub fn load<S: ByteSource + ?Sized>(&mut self, ctx: Ctx<'_, S>, address: u64) -> (r: Result<()>)
        requires
            old(self).faithful(ctx@),
        ensures
            final(self).faithful(ctx@),
            r is Ok ==> final(self).collections@.contains_key(address),
            agrees(
                match r {
                    Ok(_) => Ok(final(self).collections@[address]@),
                    Err(e) => Err(e@),
                },
                heap_at(ctx@, address),
                ctx.dependable() || !heap_reads(ctx@, address),
            ),
    {
        if self.collections.contains_key(&address) {
            return Ok(());
        }
        let heap = GlobalHeap::read(ctx, address)?;
        self.collections.insert(address, heap);
        Ok(())
    }

    /// A collection that was read before.
    pub fn collection(&self, address: u64) -> (r: Option<&GlobalHeap>)
        ensures
            match r {
                Some(h) => self.collections@.contains_key(address) && *h
                    == self.collections@[address],
                None => !self.collections@.contains_key(address),
            },
    {
        self.collections.get(&address)
    }
}

// ── strings ────────────────────────────────────────────────────────────────

impl VlenDescriptor {
    /// Whether following the descriptor reads anything. One that names no items
    /// stands for nothing that is stored.
    pub open spec fn reads(self, ctx: CtxView) -> bool {
        self.length > 0 && heap_reads(ctx, self.collection_address)
    }
}

/// Whether following the first `count` descriptors of `data` reads anything, from
/// number `k` on: the first that names items decides.
pub open spec fn follows(ctx: CtxView, data: Seq<u8>, count: nat, k: int) -> bool
    decreases count - k,
{
    k < count && match value_of(
        descriptor_at(data, k * descriptor_len(ctx.sizes()), ctx.sizes()),
    ) {
        Err(_) => false,
        Ok(d) => if d.length == 0 {
            follows(ctx, data, count, k + 1)
        } else {
            d.reads(ctx)
        },
    }
}

/// The text that a descriptor stands for: empty when it names no items, else as
/// many bytes of its object as it names, up to the first NUL.
pub open spec fn string_of(ctx: CtxView, owner: Seq<char>, d: VlenDescriptor) -> std::result::Result<
    Seq<char>,
    ErrorView,
> {
    if d.length == 0 {
        Ok(Seq::empty())
    } else {
        match heap_at(ctx, d.collection_address) {
            Err(e) => Err(e),
            Ok(heap) => match object_of(heap, d.object_index as u16, 0) {
                None => Err(
                    ErrorView::Malformed(
                        "a string of "@ + owner + " names a heap object that does not exist"@,
                    ),
                ),
                Some(data) => {
                    let kept = if data.len() < d.length {
                        data
                    } else {
                        data.take(d.length as int)
                    };
                    Ok(utf8_lossy(kept.take(first_zero(kept, 0))))
                },
            },
        }
    }
}

/// The strings that the first `count` descriptors of `data` stand for, from
/// number `out.len()` on, after those in `out`.
pub open spec fn strings_from(
    ctx: CtxView,
    owner: Seq<char>,
    data: Seq<u8>,
    count: nat,
    out: Seq<Seq<char>>,
) -> std::result::Result<Seq<Seq<char>>, ErrorView>
    decreases count - out.len(),
{
    if out.len() >= count {
        Ok(out)
    } else {
        match value_of(
            descriptor_at(data, (out.len() * descriptor_len(ctx.sizes())) as int, ctx.sizes()),
        ) {
            Err(e) => Err(e),
            Ok(d) => match string_of(ctx, owner, d) {
                Err(e) => Err(e),
                Ok(s) => strings_from(ctx, owner, data, count, out.push(s)),
            },
        }
    }
}

fn read_string<S: ByteSource + ?Sized>(
    ctx: Ctx<'_, S>,
    owner: &str,
    heaps: &mut HeapCache,
    d: VlenDescriptor,
) -> (r: Result<String>)
    requires
        old(heaps).faithful(ctx@),
    ensures
        final(heaps).faithful(ctx@),
        agrees(
            seen(r),
            string_of(ctx@, owner@, d),
            ctx.dependable() || !d.reads(ctx@),
        ),
{
    if d.length == 0 {
        return Ok(String::new());
    }
    heaps.load(ctx, d.collection_address)?;
    let missing = joined("a string of ", owner);
    let missing = add_text(missing, " names a heap object that does not exist");
    match heaps.collection(d.collection_address) {
        None => Err(Error::Malformed(missing)),
        Some(heap) => match heap.object(
            #[verifier::truncate]
            (d.object_index as u16),
        ) {
            None => Err(Error::Malformed(missing)),
            Some(object) => {
                let data = object.data.as_slice();
                let kept = if data.len() as u64 >= d.length as u64 {
                    slice_subrange(data, 0, d.length as usize)
                } else {
                    data
                };
                assert(data.len() >= d.length ==> kept@ =~= data@.take(d.length as int));
                let end: usize = position_of_zero(kept, 0);
                proof {
                    lemma_first_zero(kept@, 0);
                    assert(kept@.subrange(0, end as int) =~= kept@.take(end as int));
                }
                Ok(lossy_text(slice_subrange(kept, 0, end)))
            },
        },
    }
}

/// Follow the descriptors in `data` to the strings they stand for.
pub fn resolve_vlen_strings_of<S: ByteSource + ?Sized>(
    ctx: Ctx<'_, S>,
    owner: &str,
    data: &[u8],
    count: u64,
) -> (r: Result<Vec<String>>)
    ensures
        agrees(
            match r {
                Ok(v) => Ok(views(v@)),
                Err(e) => Err(e@),
            },
            strings_from(ctx@, owner@, data@, count as nat, Seq::empty()),
            ctx.dependable() || !follows(ctx@, data@, count as nat, 0),
        ),
{
    let sizes: Sizes = ctx.sizes();
    let len: usize = VlenDescriptor::encoded_len(sizes);
    let ghost want = strings_from(ctx@, owner@, data@, count as nat, Seq::empty());
    let mut heaps = HeapCache::new();
    let mut out: Vec<String> = Vec::new();
    let mut start: usize = 0;
    assert(data.len() <= usize::MAX);
    while (out.len() as u64) < count
        invariant
            len == descriptor_len(sizes),
            sizes == ctx@.sizes(),
            start == out@.len() * len,
            start <= data@.len() <= usize::MAX,
            out@.len() <= count,
            heaps.faithful(ctx@),
            follows(ctx@, data@, count as nat, out@.len() as int) ==> follows(
                ctx@,
                data@,
                count as nat,
                0,
            ),
            want == strings_from(ctx@, owner@, data@, count as nat, Seq::empty()),
            want == strings_from(ctx@, owner@, data@, count as nat, views(out@)),
        decreases count - out@.len(),
    {
        let mut cur = Cursor::at(data, start);
        let length: u32 = cur.u32()?;
        let collection_address: u64 = cur.uint(sizes.offset)?;
        let object_index: u32 = cur.u32()?;
        let d = VlenDescriptor { length, collection_address, object_index };
        let s = read_string(ctx, owner, &mut heaps, d)?;
        proof {
            let n = out@.len();
            assert((n + 1) * len == n * len + len) by (nonlinear_arith);
        }
        out.push(s);
        start = start + len;
    }
    Ok(out)
}

// ── sequences ──────────────────────────────────────────────────────────────

/// The bytes of the items that a descriptor stands for, each `width` bytes wide.
/// A descriptor that names no items stands for an empty sequence.
pub open spec fn sequence_of(ctx: CtxView, owner: Seq<char>, width: nat, d: VlenDescriptor) -> std::result::Result<
    Seq<u8>,
    ErrorView,
> {
    if d.length == 0 {
        Ok(Seq::empty())
    } else {
        match heap_at(ctx, d.collection_address) {
            Err(e) => Err(e),
            Ok(heap) => match object_of(heap, d.object_index as u16, 0) {
                None => Err(
                    ErrorView::Malformed(
                        "a sequence of "@ + owner + " names a heap object that does not exist"@,
                    ),
                ),
                Some(data) => if data.len() < d.length * width {
                    Err(
                        ErrorView::Malformed(
                            "a sequence of "@ + owner + " is longer than its heap object"@,
                        ),
                    )
                } else {
                    Ok(data.take(d.length * width))
                },
            },
        }
    }
}

/// The sequences that the first `count` descriptors of `data` stand for, from
/// number `out.len()` on, after those in `out`.
pub open spec fn sequences_from(
    ctx: CtxView,
    owner: Seq<char>,
    width: nat,
    data: Seq<u8>,
    count: nat,
    out: Seq<Seq<u8>>,
) -> std::result::Result<Seq<Seq<u8>>, ErrorView>
    decreases count - out.len(),
{
    if out.len() >= count {
        Ok(out)
    } else {
        match value_of(
            descriptor_at(data, (out.len() * descriptor_len(ctx.sizes())) as int, ctx.sizes()),
        ) {
            Err(e) => Err(e),
            Ok(d) => match sequence_of(ctx, owner, width, d) {
                Err(e) => Err(e),
                Ok(s) => sequences_from(ctx, owner, width, data, count, out.push(s)),
            },
        }
    }
}

fn read_sequence<S: ByteSource + ?Sized>(
    ctx: Ctx<'_, S>,
    owner: &str,
    width: u32,
    heaps: &mut HeapCache,
    d: VlenDescriptor,
) -> (r: Result<Vec<u8>>)
    requires
        old(heaps).faithful(ctx@),
    ensures
        final(heaps).faithful(ctx@),
        agrees(
            seen(r),
            sequence_of(ctx@, owner@, width as nat, d),
            ctx.dependable() || !d.reads(ctx@),
        ),
{
    if d.length == 0 {
        return Ok(Vec::new());
    }
    heaps.load(ctx, d.collection_address)?;
    let missing = joined("a sequence of ", owner);
    let missing = add_text(missing, " names a heap object that does not exist");
    assert(d.length * width <= u32::MAX * u32::MAX) by (nonlinear_arith)
        requires
            d.length <= u32::MAX,
            width <= u32::MAX,
    ;
    let len: u64 = d.length as u64 * width as u64;
    match heaps.collection(d.collection_address) {
        None => Err(Error::Malformed(missing)),
        Some(heap) => match heap.object(
            #[verifier::truncate]
            (d.object_index as u16),
        ) {
            None => Err(Error::Malformed(missing)),
            Some(object) => {
                let data = object.data.as_slice();
                if (data.len() as u64) < len {
                    let short = joined("a sequence of ", owner);
                    return Err(
                        Error::Malformed(add_text(short, " is longer than its heap object")),
                    );
                }
                let kept = slice_to_vec(slice_subrange(data, 0, len as usize));
                assert(kept@ =~= data@.take(len as int));
                Ok(kept)
            },
        },
    }
}

/// Follow the descriptors in `data` to the sequences they stand for, of items
/// that are `width` bytes wide.
pub fn resolve_vlen_sequences_of<S: ByteSource + ?Sized>(
    ctx: Ctx<'_, S>,
    owner: &str,
    width: u32,
    data: &[u8],
    count: u64,
) -> (r: Result<Vec<Vec<u8>>>)
    ensures
        agrees(
            match r {
                Ok(v) => Ok(views(v@)),
                Err(e) => Err(e@),
            },
            sequences_from(ctx@, owner@, width as nat, data@, count as nat, Seq::empty()),
            ctx.dependable() || !follows(ctx@, data@, count as nat, 0),
        ),
{
    let sizes: Sizes = ctx.sizes();
    let len: usize = VlenDescriptor::encoded_len(sizes);
    let ghost want = sequences_from(
        ctx@,
        owner@,
        width as nat,
        data@,
        count as nat,
        Seq::empty(),
    );
    let mut heaps = HeapCache::new();
    let mut out: Vec<Vec<u8>> = Vec::new();
    let mut start: usize = 0;
    assert(data.len() <= usize::MAX);
    while (out.len() as u64) < count
        invariant
            len == descriptor_len(sizes),
            sizes == ctx@.sizes(),
            start == out@.len() * len,
            start <= data@.len() <= usize::MAX,
            out@.len() <= count,
            heaps.faithful(ctx@),
            follows(ctx@, data@, count as nat, out@.len() as int) ==> follows(
                ctx@,
                data@,
                count as nat,
                0,
            ),
            want == sequences_from(
                ctx@,
                owner@,
                width as nat,
                data@,
                count as nat,
                Seq::empty(),
            ),
            want == sequences_from(
                ctx@,
                owner@,
                width as nat,
                data@,
                count as nat,
                views(out@),
            ),
        decreases count - out@.len(),
    {
        let mut cur = Cursor::at(data, start);
        let length: u32 = cur.u32()?;
        let collection_address: u64 = cur.uint(sizes.offset)?;
        let object_index: u32 = cur.u32()?;
        let d = VlenDescriptor { length, collection_address, object_index };
        let s = read_sequence(ctx, owner, width, &mut heaps, d)?;
        proof {
            let n = out@.len();
            assert((n + 1) * len == n * len + len) by (nonlinear_arith);
        }
        out.push(s);
        start = start + len;
    }
    Ok(out)
}

} // verus!
