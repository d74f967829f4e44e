//! Version 4 chunk indexes.
//!
//! A version 3 layout always indexes chunks with a version 1 B-tree. Version 4
//! picks an index to suit the dataset's shape, which is cheaper but means a
//! reader has to implement five of them:
//!
//! | Index | Chosen when |
//! |---|---|
//! | Single chunk | one chunk covers the whole dataset |
//! | Implicit | unfiltered with fixed maximum dimensions, so addresses are arithmetic |
//! | Fixed array | filtered with fixed maximum dimensions |
//! | Extensible array | exactly one unlimited dimension |
//! | Version 2 B-tree | more than one unlimited dimension |
//!
//! All of them produce the same thing this reader wants: a list of chunks, each
//! with a position, an address and a stored size.

use vstd::arithmetic::div_mod::{
    lemma_div_denominator, lemma_fundamental_div_mod, lemma_fundamental_div_mod_converse,
};
use vstd::prelude::*;
use vstd::slice::slice_to_vec;

use crate::btree1::{sort_records, ChunkRecord};
#[allow(unused_imports)]
use crate::btree1::{lists, ChunkRecordView};
use crate::btree2::BtreeV2;
#[allow(unused_imports)]
use crate::btree2::{tree_at, tree_reads};
use crate::bytes::same_bytes;
use crate::context::Ctx;
#[allow(unused_imports)]
use crate::context::CtxView;
use crate::cursor::{Cursor, Sizes};
#[allow(unused_imports)]
use crate::cursor::{
    address_at, address_required_at, length_at, skip_at, take_at, u32_at, u64_at, u8_at, uint_at,
    value_of, Parse,
};
use crate::error::{Error, Result};
#[allow(unused_imports)]
use crate::error::{seen, ErrorView};
use crate::message::layout::ChunkIndex;
use crate::objheader::verify_checksum;
#[allow(unused_imports)]
use crate::objheader::checked;
#[allow(unused_imports)]
use crate::ranking::key_less;
use crate::shape::checked_product;
#[allow(unused_imports)]
use crate::shape::product;
#[allow(unused_imports)]
use crate::source::agrees;
use crate::source::ByteSource;
use crate::text::{add_number, add_text, joined, numbered};
#[allow(unused_imports)]
use crate::text::decimal;
#[allow(unused_imports)]
use crate::views::views;

verus! {

broadcast use crate::views::group_views;

/// Signature of a fixed array header, `FAHD`.
pub const FAHD_SIGNATURE: [u8; 4] = [0x46, 0x41, 0x48, 0x44];

/// Signature of a fixed array data block, `FADB`.
pub const FADB_SIGNATURE: [u8; 4] = [0x46, 0x41, 0x44, 0x42];

/// Signature of an extensible array header, `EAHD`.
pub const EAHD_SIGNATURE: [u8; 4] = [0x45, 0x41, 0x48, 0x44];

/// Signature of an extensible array index block, `EAIB`.
pub const EAIB_SIGNATURE: [u8; 4] = [0x45, 0x41, 0x49, 0x42];

/// Signature of an extensible array data block, `EADB`.
pub const EADB_SIGNATURE: [u8; 4] = [0x45, 0x41, 0x44, 0x42];

/// Super blocks whose data blocks the index block points at directly.
///
/// Super blocks 0 and 1 hold one data block each, so the index block carries
/// two direct data block addresses before the secondary block addresses begin.
pub const SBLK_FIRST_IDX: usize = 2;

/// Client ID marking an index over filtered chunks.
pub const CLIENT_FILTERED_CHUNKS: u8 = 1;

// ── the chunk grid ─────────────────────────────────────────────────────────

/// How many chunks of extent `c` cover `d` elements. No chunk has extent zero.
pub open spec fn chunks_along(d: u64, c: u64) -> nat {
    if c == 0 {
        0
    } else {
        ((d + c - 1) / c as int) as nat
    }
}

/// Number of chunks along each axis.
pub open spec fn grid_of(shape: Seq<u64>, chunk_dims: Seq<u64>) -> Seq<u64> {
    Seq::new(
        if shape.len() < chunk_dims.len() {
            shape.len()
        } else {
            chunk_dims.len()
        },
        |i: int| chunks_along(shape[i], chunk_dims[i]) as u64,
    )
}

/// How many values the chunk number takes along an axis, and at least one.
pub open spec fn extent(grid: Seq<u64>, axis: int) -> int {
    if grid[axis] == 0 {
        1
    } else {
        grid[axis] as int
    }
}

/// How many chunks stand between two neighbours along `axis` in row-major order.
pub open spec fn stride(grid: Seq<u64>, axis: int) -> int
    decreases grid.len() - axis,
{
    if axis + 1 >= grid.len() {
        1
    } else {
        extent(grid, axis + 1) * stride(grid, axis + 1)
    }
}

/// Position along `axis` of chunk number `index`, counted in chunks.
pub open spec fn coordinate(index: int, grid: Seq<u64>, axis: int) -> int {
    (index / stride(grid, axis)) % extent(grid, axis)
}

/// Element offset of chunk number `index`, in row-major chunk order.
pub open spec fn offset_of(index: int, grid: Seq<u64>, chunk_dims: Seq<u64>) -> Seq<u64> {
    Seq::new(
        grid.len(),
        |axis: int| (coordinate(index, grid, axis) * chunk_dims[axis]) as u64,
    )
}

/// Every chunk of the grid starts at an offset that fits in 64 bits.
pub open spec fn grid_fits(grid: Seq<u64>, chunk_dims: Seq<u64>) -> bool {
    &&& grid.len() <= chunk_dims.len()
    &&& forall|axis: int|
        0 <= axis < grid.len() ==> (#[trigger] extent(grid, axis) - 1) * chunk_dims[axis]
            <= u64::MAX
}

proof fn lemma_chunks_along(d: u64, c: u64)
    requires
        c > 0,
    ensures
        chunks_along(d, c) == d as int / c as int + if d as int % c as int == 0 {
            0int
        } else {
            1
        },
        chunks_along(d, c) <= d,
        d > 0 ==> (chunks_along(d, c) - 1) * c < d <= chunks_along(d, c) * c,
{
    let (x, y) = (d as int, c as int);
    lemma_fundamental_div_mod(x, y);
    let q = x / y;
    let r = x % y;
    if r == 0 {
        assert(x + y - 1 == q * y + (y - 1)) by (nonlinear_arith)
            requires
                x == y * q + r,
                r == 0,
        ;
        lemma_fundamental_div_mod_converse(x + y - 1, y, q, y - 1);
        assert(q <= x && (x > 0 ==> (q - 1) * y < x && x <= q * y)) by (nonlinear_arith)
            requires
                x == y * q,
                y > 0,
                q >= 0,
        ;
    } else {
        assert(x + y - 1 == (q + 1) * y + (r - 1)) by (nonlinear_arith)
            requires
                x == y * q + r,
        ;
        lemma_fundamental_div_mod_converse(x + y - 1, y, q + 1, r - 1);
        assert(q + 1 <= x && q * y < x && x <= (q + 1) * y) by (nonlinear_arith)
            requires
                x == y * q + r,
                0 < r < y,
                q >= 0,
        ;
    }
}

/// The grid of any shape fits.
pub proof fn lemma_grid_fits(shape: Seq<u64>, chunk_dims: Seq<u64>)
    ensures
        grid_fits(grid_of(shape, chunk_dims), chunk_dims),
{
    let grid = grid_of(shape, chunk_dims);
    assert forall|axis: int| 0 <= axis < grid.len() implies (#[trigger] extent(grid, axis) - 1)
        * chunk_dims[axis] <= u64::MAX by {
        let (d, c) = (shape[axis], chunk_dims[axis]);
        assert(0 * c == 0) by (nonlinear_arith);
        if c > 0 {
            lemma_chunks_along(d, c);
        }
    }
}

/// The chunks along each axis cover it, and no chunk lies wholly outside.
pub proof fn chunk_grid_covers_the_shape(shape: Seq<u64>, chunk_dims: Seq<u64>, axis: int)
    requires
        0 <= axis < shape.len(),
        axis < chunk_dims.len(),
        chunk_dims[axis] > 0,
        shape[axis] > 0,
    ensures
        (grid_of(shape, chunk_dims)[axis] - 1) * chunk_dims[axis] < shape[axis] <= grid_of(
            shape,
            chunk_dims,
        )[axis] * chunk_dims[axis],
{
    lemma_chunks_along(shape[axis], chunk_dims[axis]);
}

proof fn lemma_stride_positive(grid: Seq<u64>, axis: int)
    ensures
        stride(grid, axis) > 0,
    decreases grid.len() - axis,
{
    if axis + 1 < grid.len() {
        lemma_stride_positive(grid, axis + 1);
        let (e, s) = (extent(grid, axis + 1), stride(grid, axis + 1));
        assert(e * s > 0) by (nonlinear_arith)
            requires
                e > 0,
                s > 0,
        ;
    }
}

/// Number of chunks along each axis.
pub fn chunk_grid(shape: &[u64], chunk_dims: &[u64]) -> (r: Vec<u64>)
    ensures
        r@ == grid_of(shape@, chunk_dims@),
{
    let mut out: Vec<u64> = Vec::new();
    let mut i: usize = 0;
    while i < shape.len() && i < chunk_dims.len()
        invariant
            i <= shape@.len(),
            i <= chunk_dims@.len(),
            out@ == grid_of(shape@, chunk_dims@).take(i as int),
        decreases shape@.len() - i,
    {
        let d: u64 = shape[i];
        let c: u64 = chunk_dims[i];
        let n: u64 = if c == 0 {
            0
        } else {
            proof {
                lemma_chunks_along(d, c);
            }
            if d % c == 0 {
                d / c
            } else {
                d / c + 1
            }
        };
        out.push(n);
        i = i + 1;
        assert(out@ =~= grid_of(shape@, chunk_dims@).take(i as int));
    }
    assert(grid_of(shape@, chunk_dims@).take(i as int) =~= grid_of(shape@, chunk_dims@));
    out
}

/// Element offset of chunk number `index`, in row-major chunk order.
pub fn chunk_offset(index: u64, grid: &[u64], chunk_dims: &[u64]) -> (r: Vec<u64>)
    requires
        grid_fits(grid@, chunk_dims@),
    ensures
        r@ == offset_of(index as int, grid@, chunk_dims@),
{
    let mut out: Vec<u64> = vec![0u64; grid.len()];
    let mut rest: u64 = index;
    let mut axis: usize = grid.len();
    while axis > 0
        invariant
            grid_fits(grid@, chunk_dims@),
            axis <= grid@.len(),
            out@.len() == grid@.len(),
            axis > 0 ==> rest == index as int / stride(grid@, axis - 1),
            forall|a: int|
                axis <= a < grid@.len() ==> #[trigger] out@[a] == offset_of(
                    index as int,
                    grid@,
                    chunk_dims@,
                )[a],
        decreases axis,
    {
        axis = axis - 1;
        let e: u64 = if grid[axis] == 0 { 1 } else { grid[axis] };
        proof {
            let a = axis as int;
            let k = coordinate(index as int, grid@, a);
            let c = chunk_dims@[a] as int;
            assert(extent(grid@, a) == e);
            assert(0 <= k <= e - 1);
            assert(0 <= k * c <= (e - 1) * c) by (nonlinear_arith)
                requires
                    0 <= k <= e - 1,
                    0 <= c,
            ;
            lemma_stride_positive(grid@, a);
            if a > 0 {
                lemma_div_denominator(index as int, stride(grid@, a), e as int);
                assert(stride(grid@, a) * e == e * stride(grid@, a)) by (nonlinear_arith);
                assert(stride(grid@, a - 1) == e * stride(grid@, a));
            }
        }
        out[axis] = (rest % e) * chunk_dims[axis];
        rest = rest / e;
    }
    assert(out@ =~= offset_of(index as int, grid@, chunk_dims@));
    out
}

// ── blocks and their elements ──────────────────────────────────────────────

/// One entry of an array-style index.
#[derive(Debug, Clone, Copy, PartialEq, Eq, Structural)]
pub struct Element {
    /// Address of the chunk, or `None` when it was never written.
    pub address: Option<u64>,
    /// Stored size, or zero for a full chunk.
    pub size: u32,
    /// Filters that were skipped.
    pub filter_mask: u32,
}

/// The entry of a chunk that was never written.
pub open spec fn unwritten() -> Element {
    Element { address: None, size: 0, filter_mask: 0 }
}

/// The signature and the version that start a block. The version must be zero.
pub open spec fn block_start(b: Seq<u8>, signature: Seq<u8>, what: Seq<char>) -> Parse<()> {
    match take_at(b, 0, 4) { Err(e) => Err(e), Ok((found, p)) =>
    if found != signature {
        Err((ErrorView::Malformed(what + " has the wrong signature"@), p))
    } else {
        match u8_at(b, p) { Err(e) => Err(e), Ok((version, p)) =>
        if version != 0 {
            Err((ErrorView::Unsupported(what + " version "@ + decimal(version as nat)), p))
        } else {
            Ok(((), p))
        }}
    }}
}

/// An index entry. For filtered chunks the stored size takes whatever the
/// address and the filter mask leave of the entry.
pub open spec fn element_at(b: Seq<u8>, p: int, entry_size: u8, client_id: u8, sizes: Sizes) -> Parse<
    Element,
> {
    match address_at(b, p, sizes) { Err(e) => Err(e), Ok((address, p)) =>
    if client_id != CLIENT_FILTERED_CHUNKS {
        Ok((Element { address, size: 0, filter_mask: 0 }, p))
    } else if entry_size < sizes.offset + 4 {
        Err((ErrorView::Malformed("chunk index entry is too small"@), p))
    } else {
        match uint_at(b, p, (entry_size - sizes.offset - 4) as u8) { Err(e) => Err(e), Ok((size, p)) =>
        match u32_at(b, p) { Err(e) => Err(e), Ok((filter_mask, p)) =>
            Ok((Element { address, size: size as u32, filter_mask }, p)) }}
    }}
}

/// `n` index entries, read behind those in `out`.
pub open spec fn elements_at(
    b: Seq<u8>,
    p: int,
    n: nat,
    entry_size: u8,
    client_id: u8,
    sizes: Sizes,
    out: Seq<Element>,
) -> Parse<Seq<Element>>
    decreases n,
{
    if n == 0 {
        Ok((out, p))
    } else {
        match element_at(b, p, entry_size, client_id, sizes) {
            Err(e) => Err(e),
            Ok((element, q)) => elements_at(
                b,
                q,
                (n - 1) as nat,
                entry_size,
                client_id,
                sizes,
                out.push(element),
            ),
        }
    }
}

fn expect_block(cur: &mut Cursor<'_>, want: &[u8], what: &str) -> (r: Result<()>)
    requires
        old(cur).pos == 0,
    ensures
        final(cur).moved(*old(cur), seen(r), block_start(old(cur).buf@, want@, what@)),
{
    let sig = cur.take(4)?;
    if !same_bytes(sig, want) {
        return Err(Error::Malformed(joined(what, " has the wrong signature")));
    }
    let version: u8 = cur.u8()?;
    if version != 0 {
        return Err(Error::Unsupported(add_number(joined(what, " version "), version as u64)));
    }
    Ok(())
}

/// Read `count` index entries, whose shape depends on whether chunks are
/// filtered.
fn read_elements(cur: &mut Cursor<'_>, count: u64, entry_size: u8, client_id: u8, sizes: Sizes) -> (r:
    Result<Vec<Element>>)
    ensures
        final(cur).moved(
            *old(cur),
            seen(r),
            elements_at(
                old(cur).buf@,
                old(cur).pos as int,
                count as nat,
                entry_size,
                client_id,
                sizes,
                Seq::empty(),
            ),
        ),
{
    let mut out: Vec<Element> = Vec::new();
    let mut left: u64 = count;
    while left > 0
        invariant
            cur.buf == old(cur).buf,
            elements_at(
                old(cur).buf@,
                old(cur).pos as int,
                count as nat,
                entry_size,
                client_id,
                sizes,
                Seq::empty(),
            ) == elements_at(
                cur.buf@,
                cur.pos as int,
                left as nat,
                entry_size,
                client_id,
                sizes,
                out@,
            ),
        decreases left,
    {
        let address = cur.address(sizes)?;
        if client_id == CLIENT_FILTERED_CHUNKS {
            // Address, then the stored chunk size, then the filter mask.
            if (entry_size as u16) < sizes.offset as u16 + 4 {
                return Err(Error::malformed("chunk index entry is too small"));
            }
            let size: u32 = cur.uint(entry_size - sizes.offset - 4)? as u32;
            let filter_mask: u32 = cur.u32()?;
            out.push(Element { address, size, filter_mask });
        } else {
            out.push(Element { address, size: 0, filter_mask: 0 });
        }
        left = left - 1;
    }
    Ok(out)
}

// ── fixed arrays ───────────────────────────────────────────────────────────

/// What a fixed array header says.
pub struct FixedHeader {
    pub client_id: u8,
    pub entry_size: u8,
    pub page_bits: u8,
    pub max_entries: u64,
    pub data_block: Option<u64>,
}

/// The fixed array header that `b` spells, checked against its checksum.
pub open spec fn fixed_header(b: Seq<u8>, sizes: Sizes) -> std::result::Result<
    FixedHeader,
    ErrorView,
> {
    match block_start(b, FAHD_SIGNATURE@, "fixed array header"@) { Err((e, _)) => Err(e), Ok((_, p)) =>
    match u8_at(b, p) { Err((e, _)) => Err(e), Ok((client_id, p)) =>
    match u8_at(b, p) { Err((e, _)) => Err(e), Ok((entry_size, p)) =>
    match u8_at(b, p) { Err((e, _)) => Err(e), Ok((page_bits, p)) =>
    match length_at(b, p, sizes) { Err((e, _)) => Err(e), Ok((max_entries, p)) =>
    match address_at(b, p, sizes) { Err((e, _)) => Err(e), Ok((data_block, p)) =>
    match checked(b, b.len() - 4, "fixed array header"@) { Err(e) => Err(e), Ok(_) =>
        Ok(FixedHeader { client_id, entry_size, page_bits, max_entries, data_block })
    }}}}}}}
}

/// A data block of more entries than one page holds is split into pages.
pub open spec fn paged(h: FixedHeader) -> bool {
    0 < h.page_bits < 64 && h.max_entries > (1u64 << h.page_bits)
}

/// The entries of a fixed array data block.
pub open spec fn fixed_block(ctx: CtxView, address: u64, h: FixedHeader) -> std::result::Result<
    Seq<Element>,
    ErrorView,
> {
    let sizes = ctx.sizes();
    match ctx.fetch(address, 10 + sizes.offset + h.max_entries * h.entry_size) { Err(e) => Err(e), Ok(b) =>
    match block_start(b, FADB_SIGNATURE@, "fixed array data block"@) { Err((e, _)) => Err(e), Ok((_, p)) =>
    match skip_at(b, p, 1) { Err((e, _)) => Err(e), Ok((_, p)) =>
    match skip_at(b, p, sizes.offset as int) { Err((e, _)) => Err(e), Ok((_, p)) =>
    match checked(b, b.len() - 4, "fixed array data block"@) { Err(e) => Err(e), Ok(_) =>
        value_of(elements_at(b, p, h.max_entries as nat, h.entry_size, h.client_id, sizes, Seq::empty()))
    }}}}}
}

/// Whether reading the fixed array at an address reads anything: its header lies in
/// the file.
pub open spec fn fixed_array_reads(ctx: CtxView, address: u64) -> bool {
    ctx.fetch(address, 12 + ctx.sizes().length + ctx.sizes().offset) is Ok
}

/// The entries of the fixed array at `address`.
pub open spec fn fixed_array(ctx: CtxView, address: u64) -> std::result::Result<
    Seq<Element>,
    ErrorView,
> {
    let sizes = ctx.sizes();
    match ctx.fetch(address, 12 + sizes.length + sizes.offset) { Err(e) => Err(e), Ok(b) =>
    match fixed_header(b, sizes) { Err(e) => Err(e), Ok(h) =>
    match h.data_block {
        None => Ok(Seq::empty()),
        Some(block) => if paged(h) {
            Err(ErrorView::Unsupported("paged fixed array data block"@))
        } else {
            fixed_block(ctx, block, h)
        },
    }}}
}

fn parse_fixed_header(buf: &[u8], sizes: Sizes) -> (r: Result<FixedHeader>)
    requires
        buf@.len() >= 4,
    ensures
        (match r {
            Ok(h) => Ok(h),
            Err(e) => Err(e@),
        }) == fixed_header(buf@, sizes),
{
    let mut cur = Cursor::new(buf);
    expect_block(&mut cur, FAHD_SIGNATURE.as_slice(), "fixed array header")?;
    let client_id: u8 = cur.u8()?;
    let entry_size: u8 = cur.u8()?;
    let page_bits: u8 = cur.u8()?;
    let max_entries: u64 = cur.length(sizes)?;
    let data_block = cur.address(sizes)?;
    verify_checksum(buf, buf.len() - 4, "fixed array header")?;
    Ok(FixedHeader { client_id, entry_size, page_bits, max_entries, data_block })
}

/// Read a fixed array index.
fn read_fixed_array<S: ByteSource + ?Sized>(ctx: Ctx<'_, S>, address: u64) -> (r: Result<
    Vec<Element>,
>)
    ensures
        agrees(
            seen(r),
            fixed_array(ctx@, address),
            ctx.dependable() || !fixed_array_reads(ctx@, address),
        ),
{
    let sizes = ctx.sizes();
    let header_len: u64 = 12 + sizes.length as u64 + sizes.offset as u64;
    let buf = ctx.read(address, header_len)?;
    let h = parse_fixed_header(buf.as_slice(), sizes)?;
    let data_block_address: u64 = match h.data_block {
        None => {
            return Ok(Vec::new());
        },
        Some(a) => a,
    };
    // A paged data block interleaves a bitmap and per-page checksums.
    if 0 < h.page_bits && h.page_bits < 64 && h.max_entries > (1u64 << h.page_bits) {
        return Err(Error::unsupported("paged fixed array data block"));
    }
    proof {
        assert(h.max_entries * h.entry_size <= 0x1_0000_0000_0000_0000 * 0x100) by (nonlinear_arith)
            requires
                h.max_entries <= 0x1_0000_0000_0000_0000,
                h.entry_size <= 0x100,
        ;
    }
    let block_len: u128 = 10 + sizes.offset as u128 + h.max_entries as u128 * h.entry_size as u128;
    let block = ctx.read_wide(data_block_address, block_len)?;
    let mut cur = Cursor::new(block.as_slice());
    expect_block(&mut cur, FADB_SIGNATURE.as_slice(), "fixed array data block")?;
    cur.skip(1)?;  // client id, already known
    cur.skip(sizes.offset as usize)?;  // header address
    verify_checksum(block.as_slice(), block.len() - 4, "fixed array data block")?;
    read_elements(&mut cur, h.max_entries, h.entry_size, h.client_id, sizes)
}

// ── extensible arrays ──────────────────────────────────────────────────────

/// The base-2 logarithm of `value`, rounded down.
pub open spec fn floor_log2(value: nat) -> nat
    decreases value,
{
    if value < 2 {
        0
    } else {
        1 + floor_log2(value / 2)
    }
}

/// Exact base-2 logarithm of a power of two.
pub fn log2_exact(value: usize) -> (r: usize)
    requires
        value > 0,
    ensures
        r == floor_log2(value as nat),
        r < value,
{
    let mut v: usize = value;
    let mut n: usize = 0;
    while v >= 2
        invariant
            v > 0,
            n + v <= value,
            n + floor_log2(v as nat) == floor_log2(value as nat),
        decreases v,
    {
        v = v / 2;
        n = n + 1;
    }
    n
}

/// Elements held by each data block of super block `sblk`: the run doubles with
/// every other super block.
pub open spec fn block_capacity(sblk: nat, min_elements: nat) -> nat
    decreases sblk,
{
    if sblk == 0 {
        min_elements
    } else if sblk % 2 == 1 {
        2 * block_capacity((sblk - 1) as nat, min_elements)
    } else {
        block_capacity((sblk - 1) as nat, min_elements)
    }
}

/// Elements held by the single data block of super block `sblk`.
pub fn data_block_capacity(sblk: usize, min_elements: usize) -> (r: usize)
    requires
        block_capacity(sblk as nat, min_elements as nat) <= usize::MAX,
    ensures
        r == block_capacity(sblk as nat, min_elements as nat),
    decreases sblk,
{
    if sblk == 0 {
        min_elements
    } else if sblk % 2 == 1 {
        2 * data_block_capacity(sblk - 1, min_elements)
    } else {
        data_block_capacity(sblk - 1, min_elements)
    }
}

/// What an extensible array header says.
pub struct ExtensibleHeader {
    pub client_id: u8,
    pub element_size: u8,
    pub max_nelmts_bits: u8,
    pub index_block_elements: u8,
    pub data_block_min_elements: u8,
    pub max_index_set: u64,
    pub index_block: Option<u64>,
}

/// The extensible array header that `b` spells, checked against its checksum.
pub open spec fn extensible_header(b: Seq<u8>, sizes: Sizes) -> std::result::Result<
    ExtensibleHeader,
    ErrorView,
> {
    match block_start(b, EAHD_SIGNATURE@, "extensible array header"@) { Err((e, _)) => Err(e), Ok((_, p)) =>
    match u8_at(b, p) { Err((e, _)) => Err(e), Ok((client_id, p)) =>
    match u8_at(b, p) { Err((e, _)) => Err(e), Ok((element_size, p)) =>
    match u8_at(b, p) { Err((e, _)) => Err(e), Ok((max_nelmts_bits, p)) =>
    match u8_at(b, p) { Err((e, _)) => Err(e), Ok((index_block_elements, p)) =>
    match u8_at(b, p) { Err((e, _)) => Err(e), Ok((data_block_min_elements, p)) =>
    match u8_at(b, p) { Err((e, _)) => Err(e), Ok((_, p)) =>
    match u8_at(b, p) { Err((e, _)) => Err(e), Ok((_, p)) =>
    match length_at(b, p, sizes) { Err((e, _)) => Err(e), Ok((_, p)) =>
    match length_at(b, p, sizes) { Err((e, _)) => Err(e), Ok((_, p)) =>
    match length_at(b, p, sizes) { Err((e, _)) => Err(e), Ok((_, p)) =>
    match length_at(b, p, sizes) { Err((e, _)) => Err(e), Ok((_, p)) =>
    match length_at(b, p, sizes) { Err((e, _)) => Err(e), Ok((max_index_set, p)) =>
    match length_at(b, p, sizes) { Err((e, _)) => Err(e), Ok((_, p)) =>
    match address_at(b, p, sizes) { Err((e, _)) => Err(e), Ok((index_block, p)) =>
    match checked(b, b.len() - 4, "extensible array header"@) { Err(e) => Err(e), Ok(_) =>
        Ok(ExtensibleHeader {
            client_id,
            element_size,
            max_nelmts_bits,
            index_block_elements,
            data_block_min_elements,
            max_index_set,
            index_block,
        })
    }}}}}}}}}}}}}}}}
}

impl ExtensibleHeader {
    /// How many elements stand in the index block itself.
    pub open spec fn inline_count(self) -> int {
        if self.max_index_set < self.index_block_elements {
            self.max_index_set as int
        } else {
            self.index_block_elements as int
        }
    }

    /// How many bytes the index block takes: its prefix, its own elements, the
    /// data block and super block addresses, and a checksum.
    pub open spec fn index_len(self, sizes: Sizes) -> int {
        let super_blocks = 1 + self.max_nelmts_bits - floor_log2(
            self.data_block_min_elements as nat,
        );
        10 + sizes.offset + self.index_block_elements * self.element_size + (SBLK_FIRST_IDX
            + super_blocks) * sizes.offset
    }

    /// The width of the block offset field.
    pub open spec fn block_offset_size(self) -> int {
        (self.max_nelmts_bits + 7) / 8
    }
}

/// What the index block holds: the first elements, and the addresses of the
/// first two data blocks. The addresses are only looked at where more elements
/// are set than the block holds itself.
pub open spec fn index_block(b: Seq<u8>, h: ExtensibleHeader, sizes: Sizes) -> std::result::Result<
    (Seq<Element>, Option<u64>, Option<u64>),
    ErrorView,
> {
    match block_start(b, EAIB_SIGNATURE@, "extensible array index block"@) { Err((e, _)) => Err(e), Ok((_, p)) =>
    match skip_at(b, p, 1) { Err((e, _)) => Err(e), Ok((_, p)) =>
    match skip_at(b, p, sizes.offset as int) { Err((e, _)) => Err(e), Ok((_, p)) =>
    match checked(b, b.len() - 4, "extensible array index block"@) { Err(e) => Err(e), Ok(_) =>
    match elements_at(b, p, h.inline_count() as nat, h.element_size, h.client_id, sizes, Seq::empty()) { Err((e, _)) => Err(e), Ok((inline, p)) =>
    match skip_at(b, p, (h.index_block_elements - h.inline_count()) * h.element_size) { Err((e, _)) => Err(e), Ok((_, p)) =>
    if inline.len() >= h.max_index_set {
        Ok((inline, None, None))
    } else {
        match address_at(b, p, sizes) { Err((e, _)) => Err(e), Ok((first, p)) =>
        match address_at(b, p, sizes) { Err((e, _)) => Err(e), Ok((second, _)) =>
            Ok((inline, first, second)) }}
    }}}}}}}
}

/// The first `wanted` elements of the data block at `address`.
pub open spec fn data_block(
    ctx: CtxView,
    address: u64,
    wanted: nat,
    capacity: nat,
    h: ExtensibleHeader,
) -> std::result::Result<Seq<Element>, ErrorView> {
    let sizes = ctx.sizes();
    match ctx.fetch(address, 10 + sizes.offset + h.block_offset_size() + capacity * h.element_size) { Err(e) => Err(e), Ok(b) =>
    match block_start(b, EADB_SIGNATURE@, "extensible array data block"@) { Err((e, _)) => Err(e), Ok((_, p)) =>
    match skip_at(b, p, 1) { Err((e, _)) => Err(e), Ok((_, p)) =>
    match skip_at(b, p, sizes.offset as int) { Err((e, _)) => Err(e), Ok((_, p)) =>
    match skip_at(b, p, h.block_offset_size()) { Err((e, _)) => Err(e), Ok((_, p)) =>
    match checked(b, b.len() - 4, "extensible array data block"@) { Err(e) => Err(e), Ok(_) =>
        value_of(elements_at(b, p, wanted, h.element_size, h.client_id, sizes, Seq::empty()))
    }}}}}}
}

/// `out` followed by what is set of the data block of super block `sblk`. A data
/// block that was never allocated leaves its whole run unwritten.
pub open spec fn with_data_block(
    ctx: CtxView,
    sblk: nat,
    address: Option<u64>,
    h: ExtensibleHeader,
    out: Seq<Element>,
) -> std::result::Result<Seq<Element>, ErrorView> {
    if out.len() >= h.max_index_set {
        Ok(out)
    } else {
        let capacity = block_capacity(sblk, h.data_block_min_elements as nat);
        let left = (h.max_index_set - out.len()) as nat;
        let wanted = if capacity < left {
            capacity
        } else {
            left
        };
        match address {
            None => Ok(out + Seq::new(wanted, |i: int| unwritten())),
            Some(a) => match data_block(ctx, a, wanted, capacity, h) {
                Err(e) => Err(e),
                Ok(elements) => Ok(out + elements),
            },
        }
    }
}

/// Whether reading the extensible array at an address reads anything: its header
/// lies in the file.
pub open spec fn extensible_array_reads(ctx: CtxView, address: u64) -> bool {
    ctx.fetch(address, 16 + 6 * ctx.sizes().length + ctx.sizes().offset) is Ok
}

/// The elements of the extensible array at `address`: those in the index block,
/// then those in the data blocks that it points at directly. More than that
/// hangs off secondary blocks, which are not read.
pub open spec fn extensible_array(ctx: CtxView, address: u64) -> std::result::Result<
    Seq<Element>,
    ErrorView,
> {
    let sizes = ctx.sizes();
    match ctx.fetch(address, 16 + 6 * sizes.length + sizes.offset) { Err(e) => Err(e), Ok(b) =>
    match extensible_header(b, sizes) { Err(e) => Err(e), Ok(h) =>
    match h.index_block {
        None => Ok(Seq::empty()),
        Some(at) => if h.element_size == 0 || h.data_block_min_elements == 0 {
            Err(ErrorView::Malformed(
                "extensible array header declares a zero element or block size"@))
        } else if h.max_nelmts_bits < floor_log2(h.data_block_min_elements as nat) {
            Err(ErrorView::Malformed(
                "extensible array header declares data blocks larger than the array"@))
        } else {
            match ctx.fetch(at, h.index_len(sizes)) { Err(e) => Err(e), Ok(block) =>
            match index_block(block, h, sizes) { Err(e) => Err(e), Ok((inline, first, second)) =>
            match with_data_block(ctx, 0, first, h, inline) { Err(e) => Err(e), Ok(out) =>
            match with_data_block(ctx, 1, second, h, out) { Err(e) => Err(e), Ok(out) =>
                if out.len() < h.max_index_set {
                    Err(ErrorView::Unsupported(
                        "extensible array with "@ + decimal((h.max_index_set - out.len()) as nat)
                            + " elements beyond its directly addressed data blocks; secondary blocks are not implemented"@))
                } else {
                    Ok(out)
                }
            }}}}
        },
    }}}
}

fn parse_extensible_header(buf: &[u8], sizes: Sizes) -> (r: Result<ExtensibleHeader>)
    requires
        buf@.len() >= 4,
    ensures
        (match r {
            Ok(h) => Ok(h),
            Err(e) => Err(e@),
        }) == extensible_header(buf@, sizes),
{
    let mut cur = Cursor::new(buf);
    expect_block(&mut cur, EAHD_SIGNATURE.as_slice(), "extensible array header")?;
    let client_id: u8 = cur.u8()?;
    let element_size: u8 = cur.u8()?;
    let max_nelmts_bits: u8 = cur.u8()?;
    let index_block_elements: u8 = cur.u8()?;
    let data_block_min_elements: u8 = cur.u8()?;
    let _secondary_block_min_pointers: u8 = cur.u8()?;
    let _max_data_block_page_bits: u8 = cur.u8()?;
    let _num_secondary_blocks: u64 = cur.length(sizes)?;
    let _secondary_block_size: u64 = cur.length(sizes)?;
    let _num_data_blocks: u64 = cur.length(sizes)?;
    let _data_block_size: u64 = cur.length(sizes)?;
    let max_index_set: u64 = cur.length(sizes)?;
    let _num_elements: u64 = cur.length(sizes)?;
    let index_block = cur.address(sizes)?;
    verify_checksum(buf, buf.len() - 4, "extensible array header")?;
    Ok(
        ExtensibleHeader {
            client_id,
            element_size,
            max_nelmts_bits,
            index_block_elements,
            data_block_min_elements,
            max_index_set,
            index_block,
        },
    )
}

fn parse_index_block(block: &[u8], h: &ExtensibleHeader, sizes: Sizes) -> (r: Result<
    (Vec<Element>, Option<u64>, Option<u64>),
>)
    requires
        block@.len() >= 4,
    ensures
        (match r {
            Ok((inline, first, second)) => Ok((inline@, first, second)),
            Err(e) => Err(e@),
        }) == index_block(block@, *h, sizes),
{
    let mut cur = Cursor::new(block);
    expect_block(&mut cur, EAIB_SIGNATURE.as_slice(), "extensible array index block")?;
    cur.skip(1)?;  // client id
    cur.skip(sizes.offset as usize)?;  // header address
    verify_checksum(block, block.len() - 4, "extensible array index block")?;

    // Elements stored inline.
    let inline: u8 = if h.max_index_set < h.index_block_elements as u64 {
        h.max_index_set as u8
    } else {
        h.index_block_elements
    };
    let out = read_elements(&mut cur, inline as u64, h.element_size, h.client_id, sizes)?;
    proof {
        assert((h.index_block_elements - inline) * h.element_size <= 0x100 * 0x100)
            by (nonlinear_arith)
            requires
                0 <= h.index_block_elements - inline <= 0x100,
                h.element_size <= 0x100,
        ;
    }
    cur.skip((h.index_block_elements - inline) as usize * h.element_size as usize)?;
    if out.len() as u64 >= h.max_index_set {
        return Ok((out, None, None));
    }
    let first = cur.address(sizes)?;
    let second = cur.address(sizes)?;
    Ok((out, first, second))
}

/// Read `wanted` elements out of one extensible array data block.
fn read_data_block<S: ByteSource + ?Sized>(
    ctx: Ctx<'_, S>,
    address: u64,
    wanted: u64,
    capacity: u64,
    h: &ExtensibleHeader,
) -> (r: Result<Vec<Element>>)
    requires
        capacity <= 0x1_0000,
    ensures
        agrees(
            seen(r),
            data_block(ctx@, address, wanted as nat, capacity as nat, *h),
            ctx.dependable(),
        ),
{
    let sizes = ctx.sizes();
    let block_offset_size: usize = (h.max_nelmts_bits as usize + 7) / 8;
    proof {
        assert(capacity * h.element_size <= 0x1_0000 * 0x100) by (nonlinear_arith)
            requires
                capacity <= 0x1_0000,
                h.element_size <= 0x100,
        ;
    }
    let len: u64 = 10 + sizes.offset as u64 + block_offset_size as u64 + capacity
        * h.element_size as u64;
    let block = ctx.read(address, len)?;
    let mut cur = Cursor::new(block.as_slice());
    expect_block(&mut cur, EADB_SIGNATURE.as_slice(), "extensible array data block")?;
    cur.skip(1)?;  // client id
    cur.skip(sizes.offset as usize)?;  // header address
    cur.skip(block_offset_size)?;
    verify_checksum(block.as_slice(), block.len() - 4, "extensible array data block")?;
    read_elements(&mut cur, wanted, h.element_size, h.client_id, sizes)
}

/// Append what is set of the data block of a super block.
fn append_data_block<S: ByteSource + ?Sized>(
    ctx: Ctx<'_, S>,
    sblk: usize,
    address: Option<u64>,
    h: &ExtensibleHeader,
    found: Vec<Element>,
) -> (r: Result<Vec<Element>>)
    requires
        sblk < SBLK_FIRST_IDX,
    ensures
        agrees(
            seen(r),
            with_data_block(ctx@, sblk as nat, address, *h, found@),
            ctx.dependable(),
        ),
{
    let mut out = found;
    if out.len() as u64 >= h.max_index_set {
        return Ok(out);
    }
    // Super blocks 0 and 1 each hold exactly one data block.
    proof {
        reveal_with_fuel(block_capacity, 2);
    }
    let capacity: u64 = data_block_capacity(sblk, h.data_block_min_elements as usize) as u64;
    let left: u64 = h.max_index_set - out.len() as u64;
    let wanted: u64 = if capacity < left { capacity } else { left };
    match address {
        None => {
            // An unallocated data block leaves that whole run unwritten.
            let ghost whole = found@ + Seq::new(wanted as nat, |i: int| unwritten());
            let mut i: u64 = 0;
            assert(out@ =~= whole.take(found@.len() as int));
            while i < wanted
                invariant
                    i <= wanted,
                    whole == found@ + Seq::new(wanted as nat, |i: int| unwritten()),
                    out@.len() == found@.len() + i,
                    out@ == whole.take(found@.len() + i),
                decreases wanted - i,
            {
                out.push(Element { address: None, size: 0, filter_mask: 0 });
                i = i + 1;
                assert(out@ =~= whole.take(found@.len() + i));
            }
            assert(whole.take(found@.len() + i) =~= whole);
            Ok(out)
        },
        Some(a) => {
            let mut elements = read_data_block(ctx, a, wanted, capacity, h)?;
            out.append(&mut elements);
            Ok(out)
        },
    }
}

/// Read an extensible array index.
///
/// The elements are spread across three places, in index order:
///
/// 1. the first `idx_blk_elmts` sit inside the index block;
/// 2. the next few live in data blocks the index block points at directly;
/// 3. anything beyond that hangs off secondary blocks.
///
/// Super block `u` holds `2^(u/2)` data blocks of `2^((u+1)/2) * min` elements
/// each, so the run each data block covers grows as the array does.
fn read_extensible_array<S: ByteSource + ?Sized>(ctx: Ctx<'_, S>, address: u64) -> (r: Result<
    Vec<Element>,
>)
    ensures
        agrees(
            seen(r),
            extensible_array(ctx@, address),
            ctx.dependable() || !extensible_array_reads(ctx@, address),
        ),
{
    let sizes = ctx.sizes();
    let header_len: u64 = 16 + 6 * sizes.length as u64 + sizes.offset as u64;
    let buf = ctx.read(address, header_len)?;
    let h = parse_extensible_header(buf.as_slice(), sizes)?;
    let index_block_address: u64 = match h.index_block {
        None => {
            return Ok(Vec::new());
        },
        Some(a) => a,
    };
    if h.element_size == 0 || h.data_block_min_elements == 0 {
        return Err(
            Error::malformed("extensible array header declares a zero element or block size"),
        );
    }
    // Super block layout, which fixes how many elements each data block holds.
    let log2: usize = log2_exact(h.data_block_min_elements as usize);
    if (h.max_nelmts_bits as usize) < log2 {
        return Err(
            Error::malformed("extensible array header declares data blocks larger than the array"),
        );
    }
    let total_addresses: usize = SBLK_FIRST_IDX + 1 + h.max_nelmts_bits as usize - log2;
    proof {
        assert(h.index_block_elements * h.element_size <= 0x100 * 0x100) by (nonlinear_arith)
            requires
                h.index_block_elements <= 0x100,
                h.element_size <= 0x100,
        ;
        assert(total_addresses * sizes.offset <= 0x1000 * 0x100) by (nonlinear_arith)
            requires
                total_addresses <= 0x1000,
                sizes.offset <= 0x100,
        ;
    }
    let index_len: u64 = 10 + sizes.offset as u64 + h.index_block_elements as u64
        * h.element_size as u64 + total_addresses as u64 * sizes.offset as u64;
    let block = ctx.read(index_block_address, index_len)?;
    let (inline, first, second) = parse_index_block(block.as_slice(), &h, sizes)?;
    let out = append_data_block(ctx, 0, first, &h, inline)?;
    let out = append_data_block(ctx, 1, second, &h, out)?;
    if (out.len() as u64) < h.max_index_set {
        // Secondary blocks. Only reached by arrays larger than the first two
        // super blocks cover, and not implemented; say so rather than return a
        // short index, which would read as missing chunks.
        let m = numbered("extensible array with ", h.max_index_set - out.len() as u64);
        return Err(
            Error::Unsupported(
                add_text(
                    m,
                    " elements beyond its directly addressed data blocks; secondary blocks are not implemented",
                ),
            ),
        );
    }
    Ok(out)
}

// ── records ────────────────────────────────────────────────────────────────

/// The chunks among the first `n` elements: each element that has an address,
/// at the place of its number in the grid. A size of zero means a full chunk.
pub open spec fn placed(
    elements: Seq<Element>,
    n: nat,
    grid: Seq<u64>,
    chunk_dims: Seq<u64>,
    full_size: u64,
) -> Seq<ChunkRecordView>
    decreases n,
{
    if n == 0 {
        Seq::empty()
    } else {
        let before = placed(elements, (n - 1) as nat, grid, chunk_dims, full_size);
        let e = elements[n - 1];
        match e.address {
            None => before,
            Some(address) => before.push(
                ChunkRecordView {
                    size: if e.size == 0 {
                        full_size as u32
                    } else {
                        e.size
                    },
                    filter_mask: e.filter_mask,
                    offset: offset_of(n - 1, grid, chunk_dims),
                    address,
                },
            ),
        }
    }
}

fn elements_to_records(
    elements: &Vec<Element>,
    grid: &[u64],
    chunk_dims: &[u64],
    unfiltered_size: u64,
) -> (r: Vec<ChunkRecord>)
    requires
        grid_fits(grid@, chunk_dims@),
    ensures
        views(r@) == placed(
            elements@,
            elements@.len(),
            grid@,
            chunk_dims@,
            unfiltered_size,
        ),
{
    let mut out: Vec<ChunkRecord> = Vec::new();
    let mut i: usize = 0;
    while i < elements.len()
        invariant
            grid_fits(grid@, chunk_dims@),
            i <= elements@.len(),
            views(out@) == placed(elements@, i as nat, grid@, chunk_dims@, unfiltered_size),
        decreases elements@.len() - i,
    {
        let e = elements[i];
        if let Some(address) = e.address {
            out.push(
                ChunkRecord {
                    size: if e.size == 0 { unfiltered_size as u32 } else { e.size },
                    filter_mask: e.filter_mask,
                    offset: chunk_offset(i as u64, grid, chunk_dims),
                    address,
                },
            );
        }
        i = i + 1;
    }
    out
}

/// How chunk B-tree records are laid out: how many offsets they carry and how
/// wide the stored size is.
pub struct RecordShape {
    pub stored_dims: nat,
    pub size_width: u8,
}

/// The layout of records of `record_size` bytes. The number of offsets is what
/// the record size has room for, and a filtered record's size field takes
/// whatever is left over.
pub open spec fn record_shape(record_size: nat, offset_width: u8, filtered: bool) -> RecordShape {
    let fixed = if filtered {
        offset_width + 4
    } else {
        offset_width as int
    };
    let room = if record_size > fixed {
        record_size - fixed
    } else {
        0
    };
    let stored_dims = (room / 8) as nat;
    let left = record_size - (offset_width + 4 + stored_dims * 8);
    RecordShape { stored_dims, size_width: if left > 0 { left as u8 } else { 0 } }
}

/// `n` scaled offsets, which count chunks rather than elements, read behind
/// those in `out`. Only the first `chunk_dims.len()` belong to the dataset.
pub open spec fn scaled_offsets_at(
    b: Seq<u8>,
    p: int,
    axis: nat,
    n: nat,
    chunk_dims: Seq<u64>,
    out: Seq<u64>,
) -> Parse<Seq<u64>>
    decreases n - axis,
{
    if axis >= n {
        Ok((out, p))
    } else {
        match u64_at(b, p) { Err(e) => Err(e), Ok((scaled, p)) =>
            if axis >= chunk_dims.len() {
                scaled_offsets_at(b, p, axis + 1, n, chunk_dims, out)
            } else if scaled * chunk_dims[axis as int] > u64::MAX {
                Err((ErrorView::Malformed("chunk offset does not fit in 64 bits"@), p))
            } else {
                scaled_offsets_at(b, p, axis + 1, n, chunk_dims,
                    out.push((scaled * chunk_dims[axis as int]) as u64))
            }
        }
    }
}

/// The stored size and filter mask of a filtered record; both are zero in an
/// unfiltered one.
pub open spec fn size_and_mask_at(b: Seq<u8>, p: int, shape: RecordShape, filtered: bool) -> Parse<
    (u32, u32),
> {
    if filtered {
        match uint_at(b, p, shape.size_width) { Err(e) => Err(e), Ok((size, p)) =>
        match u32_at(b, p) { Err(e) => Err(e), Ok((mask, p)) => Ok(((size as u32, mask), p)) }}
    } else {
        Ok(((0u32, 0u32), p))
    }
}

/// The chunk that a B-tree record describes.
pub open spec fn chunk_of_record(
    b: Seq<u8>,
    shape: RecordShape,
    chunk_dims: Seq<u64>,
    filtered: bool,
    sizes: Sizes,
) -> std::result::Result<ChunkRecordView, ErrorView> {
    match address_required_at(b, 0, sizes, "chunk B-tree record"@) { Err((e, _)) => Err(e), Ok((address, p)) =>
    match size_and_mask_at(b, p, shape, filtered) { Err((e, _)) => Err(e), Ok(((size, filter_mask), p)) =>
    match scaled_offsets_at(b, p, 0, shape.stored_dims, chunk_dims, Seq::empty()) { Err((e, _)) => Err(e), Ok((offset, _)) =>
        Ok(ChunkRecordView { size, filter_mask, offset, address })
    }}}
}

/// The chunks that the first `n` records describe, the first failure winning.
pub open spec fn chunks_of_records(
    records: Seq<Seq<u8>>,
    shape: RecordShape,
    chunk_dims: Seq<u64>,
    filtered: bool,
    sizes: Sizes,
    out: Seq<ChunkRecordView>,
) -> std::result::Result<Seq<ChunkRecordView>, ErrorView>
    decreases records.len() - out.len(),
{
    if out.len() >= records.len() {
        Ok(out)
    } else {
        match chunk_of_record(records[out.len() as int], shape, chunk_dims, filtered, sizes) {
            Err(e) => Err(e),
            Ok(record) => chunks_of_records(
                records,
                shape,
                chunk_dims,
                filtered,
                sizes,
                out.push(record),
            ),
        }
    }
}

/// The chunks of a version 2 B-tree index.
pub open spec fn btree2_chunks(
    ctx: CtxView,
    address: u64,
    chunk_dims: Seq<u64>,
    filtered: bool,
) -> std::result::Result<Seq<ChunkRecordView>, ErrorView> {
    match tree_at(ctx, address) { Err(e) => Err(e), Ok(tree) => {
        let shape = record_shape(tree.record_size, ctx.sizes().offset, filtered);
        if shape.stored_dims < chunk_dims.len() {
            Err(ErrorView::Malformed(
                "chunk B-tree record holds "@ + decimal(shape.stored_dims) + " offsets for a rank-"@
                    + decimal(chunk_dims.len()) + " dataset"@))
        } else {
            chunks_of_records(tree.records, shape, chunk_dims, filtered, ctx.sizes(), Seq::empty())
        }
    }}
}

fn parse_chunk_record(
    record: &[u8],
    stored_dims: usize,
    size_width: u8,
    chunk_dims: &[u64],
    filtered: bool,
    sizes: Sizes,
) -> (r: Result<ChunkRecord>)
    ensures
        seen(r) == chunk_of_record(
            record@,
            (RecordShape { stored_dims: stored_dims as nat, size_width }),
            chunk_dims@,
            filtered,
            sizes,
        ),
{
    let mut cur = Cursor::new(record);
    let address: u64 = cur.address_required(sizes, "chunk B-tree record")?;
    let (size, filter_mask): (u32, u32) = if filtered {
        let size: u32 = cur.uint(size_width)? as u32;
        let mask: u32 = cur.u32()?;
        (size, mask)
    } else {
        (0, 0)
    };
    // Offsets are *scaled*: they count chunks, not elements.
    let mut offset: Vec<u64> = Vec::new();
    let mut axis: usize = 0;
    let ghost start = cur.pos as int;
    while axis < stored_dims
        invariant
            cur.buf@ == record@,
            axis <= stored_dims,
            chunk_of_record(
                record@,
                RecordShape { stored_dims: stored_dims as nat, size_width },
                chunk_dims@,
                filtered,
                sizes,
            ) == (match scaled_offsets_at(
                record@,
                cur.pos as int,
                axis as nat,
                stored_dims as nat,
                chunk_dims@,
                offset@,
            ) {
                Err((e, _)) => Err(e),
                Ok((offset, _)) => Ok(ChunkRecordView { size, filter_mask, offset, address }),
            }),
        decreases stored_dims - axis,
    {
        let scaled: u64 = cur.u64()?;
        if axis < chunk_dims.len() {
            match scaled.checked_mul(chunk_dims[axis]) {
                Some(x) => {
                    offset.push(x);
                },
                None => {
                    return Err(Error::malformed("chunk offset does not fit in 64 bits"));
                },
            }
        }
        axis = axis + 1;
    }
    Ok(ChunkRecord { size, filter_mask, offset, address })
}

/// Read a version 2 B-tree chunk index.
///
/// Record type 10 holds unfiltered chunks and type 11 filtered ones. Both end
/// with one scaled offset per dimension.
fn read_btree2_chunks<S: ByteSource + ?Sized>(
    ctx: Ctx<'_, S>,
    address: u64,
    chunk_dims: &[u64],
    filtered: bool,
) -> (r: Result<Vec<ChunkRecord>>)
    ensures
        agrees(
            match r {
                Ok(v) => Ok(views(v@)),
                Err(e) => Err(e@),
            },
            btree2_chunks(ctx@, address, chunk_dims@, filtered),
            ctx.dependable() || !tree_reads(ctx@, address),
        ),
{
    let sizes = ctx.sizes();
    let btree = BtreeV2::read(ctx, address)?;
    let offset_width: usize = sizes.offset as usize;

    // The record carries one 8-byte offset per stored dimension, and the layout
    // counts a trailing element-size axis, so the number of offsets is derived
    // from the record size rather than assumed.
    let fixed: usize = if filtered {
        // Address, plus a size field, plus a 4-byte filter mask.
        offset_width + 4
    } else {
        offset_width
    };
    let offsets_bytes: usize = if btree.record_size > fixed { btree.record_size - fixed } else { 0 };
    let stored_dims: usize = offsets_bytes / 8;
    if stored_dims < chunk_dims.len() {
        let m = numbered("chunk B-tree record holds ", stored_dims as u64);
        let m = add_number(add_text(m, " offsets for a rank-"), chunk_dims.len() as u64);
        return Err(Error::Malformed(add_text(m, " dataset")));
    }
    // A filtered record's size field takes whatever is left over.
    let used: u128 = offset_width as u128 + 4 + stored_dims as u128 * 8;
    let size_width: u8 = if btree.record_size as u128 > used {
        (btree.record_size as u128 - used) as u8
    } else {
        0
    };
    let ghost shape = record_shape(btree.record_size as nat, sizes.offset, filtered);
    assert(shape == RecordShape { stored_dims: stored_dims as nat, size_width });

    let mut out: Vec<ChunkRecord> = Vec::new();
    let ghost records = views(btree.records@);
    while out.len() < btree.records.len()
        invariant
            sizes == ctx@.sizes(),
            records == views(btree.records@),
            shape == (RecordShape { stored_dims: stored_dims as nat, size_width }),
            out@.len() <= btree.records@.len(),
            btree2_chunks(ctx@, address, chunk_dims@, filtered) == chunks_of_records(
                records,
                shape,
                chunk_dims@,
                filtered,
                sizes,
                views(out@),
            ),
        decreases btree.records@.len() - out@.len(),
    {
        let record = btree.records[out.len()].as_slice();
        assert(record@ == records[out@.len() as int]);
        let chunk = parse_chunk_record(
            record,
            stored_dims,
            size_width,
            chunk_dims,
            filtered,
            sizes,
        )?;
        out.push(chunk);
    }
    Ok(out)
}

/// A record with a size of zero stands for a full chunk.
pub open spec fn filled(record: ChunkRecordView, full_size: u64) -> ChunkRecordView {
    ChunkRecordView {
        size: if record.size == 0 {
            full_size as u32
        } else {
            record.size
        },
        filter_mask: record.filter_mask,
        offset: record.offset,
        address: record.address,
    }
}

/// The chunks of an implicit index: back to back in row-major chunk order.
pub open spec fn implicit_chunks(
    address: u64,
    total: nat,
    grid: Seq<u64>,
    chunk_dims: Seq<u64>,
    full_size: u64,
) -> Seq<ChunkRecordView> {
    Seq::new(
        total,
        |i: int|
            ChunkRecordView {
                size: full_size as u32,
                filter_mask: 0,
                offset: offset_of(i, grid, chunk_dims),
                address: (address + i * full_size) as u64,
            },
    )
}

/// The chunks of an index whose chunks are `full_size` bytes unfiltered, in the
/// order in which the index lists them.
pub open spec fn listed_chunks(
    ctx: CtxView,
    index: ChunkIndex,
    address: u64,
    shape: Seq<u64>,
    chunk_dims: Seq<u64>,
    full_size: u64,
    total: u64,
    filtered: bool,
) -> std::result::Result<Seq<ChunkRecordView>, ErrorView> {
    let grid = grid_of(shape, chunk_dims);
    match index {
        ChunkIndex::SingleChunk { filtered_size, filter_mask } => Ok(
            seq![
                ChunkRecordView {
                    size: if filtered {
                        filtered_size as u32
                    } else {
                        full_size as u32
                    },
                    filter_mask,
                    offset: Seq::new(shape.len(), |i: int| 0u64),
                    address,
                },
            ],
        ),
        ChunkIndex::Implicit => if total > ctx.image.bytes.len() {
            Err(
                ErrorView::Malformed(
                    "implicit chunk index claims more chunks than the file has bytes"@,
                ),
            )
        } else if total > 0 && address + (total - 1) * full_size > u64::MAX {
            Err(ErrorView::Malformed("chunk address does not fit in 64 bits"@))
        } else {
            Ok(implicit_chunks(address, total as nat, grid, chunk_dims, full_size))
        },
        ChunkIndex::FixedArray { .. } => match fixed_array(ctx, address) {
            Err(e) => Err(e),
            Ok(elements) => Ok(placed(elements, elements.len(), grid, chunk_dims, full_size)),
        },
        ChunkIndex::ExtensibleArray { .. } => match extensible_array(ctx, address) {
            Err(e) => Err(e),
            Ok(elements) => Ok(placed(elements, elements.len(), grid, chunk_dims, full_size)),
        },
        ChunkIndex::BtreeV2 { .. } => match btree2_chunks(ctx, address, chunk_dims, filtered) {
            Err(e) => Err(e),
            Ok(records) => Ok(
                Seq::new(records.len(), |i: int| filled(records[i], full_size)),
            ),
        },
        ChunkIndex::BtreeV1 => Err(
            ErrorView::Malformed("a version 1 B-tree index reached the version 4 resolver"@),
        ),
    }
}

/// Whether listing the chunks of an index reads anything. A single chunk and an
/// implicit index stand in the layout message alone.
pub open spec fn list_reads(ctx: CtxView, index: ChunkIndex, address: u64) -> bool {
    match index {
        ChunkIndex::FixedArray { .. } => fixed_array_reads(ctx, address),
        ChunkIndex::ExtensibleArray { .. } => extensible_array_reads(ctx, address),
        ChunkIndex::BtreeV2 { .. } => tree_reads(ctx, address),
        _ => false,
    }
}

/// Whether resolving a version 4 index reads anything. Sizes that do not fit are
/// refused before.
pub open spec fn index_reads(
    ctx: CtxView,
    index: ChunkIndex,
    address: Option<u64>,
    shape: Seq<u64>,
    chunk_dims: Seq<u64>,
    element_size: nat,
) -> bool {
    &&& address is Some
    &&& product(chunk_dims.push(element_size as u64)) <= u64::MAX
    &&& product(grid_of(shape, chunk_dims)) <= u64::MAX
    &&& list_reads(ctx, index, address->Some_0)
}

/// The chunks of a version 4 index, in the order in which the index lists them.
/// A dataset without an index has none.
pub open spec fn indexed_chunks(
    ctx: CtxView,
    index: ChunkIndex,
    address: Option<u64>,
    shape: Seq<u64>,
    chunk_dims: Seq<u64>,
    element_size: nat,
    filtered: bool,
) -> std::result::Result<Seq<ChunkRecordView>, ErrorView> {
    match address {
        None => Ok(Seq::empty()),
        Some(a) => {
            let full_size = product(chunk_dims.push(element_size as u64));
            let total = product(grid_of(shape, chunk_dims));
            if full_size > u64::MAX {
                Err(ErrorView::Malformed("chunk size does not fit in 64 bits"@))
            } else if total > u64::MAX {
                Err(ErrorView::Malformed("chunk count does not fit in 64 bits"@))
            } else {
                listed_chunks(
                    ctx,
                    index,
                    a,
                    shape,
                    chunk_dims,
                    full_size as u64,
                    total as u64,
                    filtered,
                )
            }
        },
    }
}

/// Resolve a version 4 chunk index into chunk records.
///
/// `shape` and `chunk_dims` describe the dataset, and `element_size` the width
/// of one value; together they give each chunk's position and unfiltered size.
pub fn read<S: ByteSource + ?Sized>(
    ctx: Ctx<'_, S>,
    index: &ChunkIndex,
    address: Option<u64>,
    shape: &[u64],
    chunk_dims: &[u64],
    element_size: usize,
    filtered: bool,
) -> (r: Result<Vec<ChunkRecord>>)
    ensures
        lists(
            r,
            indexed_chunks(
                ctx@,
                *index,
                address,
                shape@,
                chunk_dims@,
                element_size as nat,
                filtered,
            ),
            ctx.dependable() || !index_reads(
                ctx@,
                *index,
                address,
                shape@,
                chunk_dims@,
                element_size as nat,
            ),
        ),
        address is None ==> (r matches Ok(v) && v@.len() == 0),
{
    match address {
        None => {
            let none: Vec<ChunkRecord> = Vec::new();
            Ok(sort_records(none))
        },
        Some(a) => read_at(ctx, index, a, shape, chunk_dims, element_size, filtered),
    }
}

/// Resolve the index at an address.
fn read_at<S: ByteSource + ?Sized>(
    ctx: Ctx<'_, S>,
    index: &ChunkIndex,
    address: u64,
    shape: &[u64],
    chunk_dims: &[u64],
    element_size: usize,
    filtered: bool,
) -> (r: Result<Vec<ChunkRecord>>)
    ensures
        lists(
            r,
            indexed_chunks(
                ctx@,
                *index,
                Some(address),
                shape@,
                chunk_dims@,
                element_size as nat,
                filtered,
            ),
            ctx.dependable() || !index_reads(
                ctx@,
                *index,
                Some(address),
                shape@,
                chunk_dims@,
                element_size as nat,
            ),
        ),
{
    let mut extents: Vec<u64> = slice_to_vec(chunk_dims);
    extents.push(element_size as u64);
    let unfiltered_size: u64 = match checked_product(extents.as_slice()) {
        Some(n) => n,
        None => {
            return Err(Error::malformed("chunk size does not fit in 64 bits"));
        },
    };
    let grid = chunk_grid(shape, chunk_dims);
    let total: u64 = match checked_product(grid.as_slice()) {
        Some(n) => n,
        None => {
            return Err(Error::malformed("chunk count does not fit in 64 bits"));
        },
    };
    let records = list_chunks(
        ctx,
        index,
        address,
        shape,
        chunk_dims,
        grid.as_slice(),
        unfiltered_size,
        total,
        filtered,
    )?;
    Ok(sort_records(records))
}

fn list_chunks<S: ByteSource + ?Sized>(
    ctx: Ctx<'_, S>,
    index: &ChunkIndex,
    address: u64,
    shape: &[u64],
    chunk_dims: &[u64],
    grid: &[u64],
    unfiltered_size: u64,
    total: u64,
    filtered: bool,
) -> (r: Result<Vec<ChunkRecord>>)
    requires
        grid@ == grid_of(shape@, chunk_dims@),
    ensures
        agrees(
            match r {
                Ok(v) => Ok(views(v@)),
                Err(e) => Err(e@),
            },
            listed_chunks(
                ctx@,
                *index,
                address,
                shape@,
                chunk_dims@,
                unfiltered_size,
                total,
                filtered,
            ),
            ctx.dependable() || !list_reads(ctx@, *index, address),
        ),
{
    proof {
        lemma_grid_fits(shape@, chunk_dims@);
    }
    match index {
        ChunkIndex::SingleChunk { filtered_size, filter_mask } => {
            let record = ChunkRecord {
                size: if filtered { *filtered_size as u32 } else { unfiltered_size as u32 },
                filter_mask: *filter_mask,
                offset: vec![0u64; shape.len()],
                address,
            };
            let mut out: Vec<ChunkRecord> = Vec::new();
            out.push(record);
            assert(record.offset@ =~= Seq::new(shape@.len(), |i: int| 0u64));
            assert(views(out@) =~= seq![record@]);
            Ok(out)
        },
        // Chunks sit back to back in row-major chunk order, so each address is
        // arithmetic. An implicit index only exists for unfiltered data.
        ChunkIndex::Implicit => list_implicit(
            ctx.source.size(),
            address,
            total,
            grid,
            chunk_dims,
            unfiltered_size,
        ),
        ChunkIndex::FixedArray { .. } => {
            let elements = read_fixed_array(ctx, address)?;
            Ok(elements_to_records(&elements, grid, chunk_dims, unfiltered_size))
        },
        ChunkIndex::ExtensibleArray { .. } => {
            let elements = read_extensible_array(ctx, address)?;
            Ok(elements_to_records(&elements, grid, chunk_dims, unfiltered_size))
        },
        ChunkIndex::BtreeV2 { .. } => {
            let records = read_btree2_chunks(ctx, address, chunk_dims, filtered)?;
            // An unfiltered record stores no size; it is the full chunk.
            Ok(fill_sizes(records, unfiltered_size))
        },
        ChunkIndex::BtreeV1 => Err(
            Error::malformed("a version 1 B-tree index reached the version 4 resolver"),
        ),
    }
}

fn fill_sizes(records: Vec<ChunkRecord>, unfiltered_size: u64) -> (r: Vec<ChunkRecord>)
    ensures
        views(r@) == Seq::new(
            records@.len(),
            |i: int| filled(views(records@)[i], unfiltered_size),
        ),
{
    let ghost want = Seq::new(
        records@.len(),
        |i: int| filled(views(records@)[i], unfiltered_size),
    );
    let mut out: Vec<ChunkRecord> = Vec::new();
    while out.len() < records.len()
        invariant
            want == Seq::new(
                records@.len(),
                |i: int| filled(views(records@)[i], unfiltered_size),
            ),
            out@.len() <= records@.len(),
            views(out@) == want.take(out@.len() as int),
        decreases records@.len() - out@.len(),
    {
        let r = &records[out.len()];
        out.push(
            ChunkRecord {
                size: if r.size == 0 { unfiltered_size as u32 } else { r.size },
                filter_mask: r.filter_mask,
                offset: slice_to_vec(r.offset.as_slice()),
                address: r.address,
            },
        );
        assert(views(out@) =~= want.take(out@.len() as int));
    }
    assert(want.take(want.len() as int) =~= want);
    out
}

fn list_implicit(
    file_size: u64,
    address: u64,
    total: u64,
    grid: &[u64],
    chunk_dims: &[u64],
    unfiltered_size: u64,
) -> (r: Result<Vec<ChunkRecord>>)
    requires
        grid_fits(grid@, chunk_dims@),
    ensures
        (match r {
            Ok(v) => Ok(views(v@)),
            Err(e) => Err(e@),
        }) == if total > file_size {
            Err(
                ErrorView::Malformed(
                    "implicit chunk index claims more chunks than the file has bytes"@,
                ),
            )
        } else if total > 0 && address + (total - 1) * unfiltered_size > u64::MAX {
            Err(ErrorView::Malformed("chunk address does not fit in 64 bits"@))
        } else {
            Ok(implicit_chunks(address, total as nat, grid@, chunk_dims@, unfiltered_size))
        },
{
    if total > file_size {
        return Err(
            Error::malformed("implicit chunk index claims more chunks than the file has bytes"),
        );
    }
    let ghost want = implicit_chunks(
        address,
        total as nat,
        grid@,
        chunk_dims@,
        unfiltered_size,
    );
    if total > 0 {
        proof {
            assert((total - 1) * unfiltered_size <= 0xffff_ffff_ffff_fffe * 0xffff_ffff_ffff_ffff)
                by (nonlinear_arith)
                requires
                    0 <= total - 1 <= 0xffff_ffff_ffff_fffe,
                    unfiltered_size <= 0xffff_ffff_ffff_ffff,
            ;
        }
        let last: u128 = address as u128 + (total - 1) as u128 * unfiltered_size as u128;
        if last > u64::MAX as u128 {
            return Err(Error::malformed("chunk address does not fit in 64 bits"));
        }
    }
    let mut out: Vec<ChunkRecord> = Vec::new();
    let mut i: u64 = 0;
    let mut at: u64 = address;
    assert(views(out@) =~= want.take(0));
    assert(address + 0 * unfiltered_size == address) by (nonlinear_arith);
    while i < total
        invariant
            grid_fits(grid@, chunk_dims@),
            total > 0 ==> address + (total - 1) * unfiltered_size <= u64::MAX,
            want == implicit_chunks(address, total as nat, grid@, chunk_dims@, unfiltered_size),
            i <= total,
            i < total ==> at == address + i * unfiltered_size,
            views(out@) == want.take(i as int),
        decreases total - i,
    {
        out.push(
            ChunkRecord {
                size: unfiltered_size as u32,
                filter_mask: 0,
                offset: chunk_offset(i, grid, chunk_dims),
                address: at,
            },
        );
        proof {
            assert(views(out@) =~= want.take(i + 1));
            if i + 1 < total {
                assert((i + 1) * unfiltered_size == i * unfiltered_size + unfiltered_size)
                    by (nonlinear_arith);
                assert((i + 1) * unfiltered_size <= (total - 1) * unfiltered_size)
                    by (nonlinear_arith)
                    requires
                        i + 1 <= total - 1,
                        0 <= unfiltered_size,
                ;
            }
        }
        i = i + 1;
        if i < total {
            at = at + unfiltered_size;
        }
    }
    assert(want.take(total as int) =~= want);
    Ok(out)
}

// ── the order of chunks ────────────────────────────────────────────────────

/// Every extent of a grid is at least one.
pub open spec fn all_positive(grid: Seq<u64>) -> bool {
    forall|a: int| 0 <= a < grid.len() ==> #[trigger] grid[a] > 0
}

proof fn lemma_key_less_push(a: Seq<u64>, b: Seq<u64>, x: u64, y: u64)
    requires
        a.len() == b.len(),
        key_less(a, b) || (a == b && x < y),
    ensures
        key_less(a.push(x), b.push(y)),
    decreases a.len(),
{
    let (p, q) = (a.push(x), b.push(y));
    if a.len() > 0 {
        assert(p.skip(1) =~= a.skip(1).push(x));
        assert(q.skip(1) =~= b.skip(1).push(y));
        if a[0] == b[0] {
            lemma_key_less_push(a.skip(1), b.skip(1), x, y);
        }
    }
}

/// The stride of an axis does not change when the last axis is split off, but
/// for the factor that axis gives.
proof fn lemma_stride_split(grid: Seq<u64>, axis: int)
    requires
        0 <= axis < grid.len() - 1,
    ensures
        stride(grid, axis) == stride(grid.drop_last(), axis) * extent(grid, grid.len() - 1),
    decreases grid.len() - axis,
{
    let front = grid.drop_last();
    let e = extent(grid, grid.len() - 1);
    if axis == grid.len() - 2 {
        assert(stride(grid, axis) == e * stride(grid, axis + 1));
        assert(1 * e == e && e * 1 == e) by (nonlinear_arith);
    } else {
        lemma_stride_split(grid, axis + 1);
        let (m, s) = (extent(grid, axis + 1), stride(front, axis + 1));
        assert(extent(front, axis + 1) == m);
        assert(m * (s * e) == (m * s) * e) by (nonlinear_arith);
    }
}

/// The offsets of a chunk, with the last axis split off.
pub proof fn lemma_offset_split(index: int, grid: Seq<u64>, chunk_dims: Seq<u64>)
    requires
        0 <= index,
        0 < grid.len() <= chunk_dims.len(),
        all_positive(grid),
    ensures
        offset_of(index, grid, chunk_dims) == offset_of(
            index / grid.last() as int,
            grid.drop_last(),
            chunk_dims,
        ).push((index % grid.last() as int * chunk_dims[grid.len() - 1]) as u64),
{
    let front = grid.drop_last();
    let c = grid.last() as int;
    let n = grid.len() - 1;
    let whole = offset_of(index, grid, chunk_dims);
    let split = offset_of(index / c, front, chunk_dims).push(
        (index % c * chunk_dims[n]) as u64,
    );
    assert(grid[n] > 0);
    assert forall|axis: int| 0 <= axis < grid.len() implies whole[axis] == split[axis] by {
        if axis < n {
            lemma_stride_split(grid, axis);
            lemma_stride_positive(front, axis);
            assert(extent(front, axis) == extent(grid, axis));
            let s = stride(front, axis);
            assert(s * c == c * s) by (nonlinear_arith);
            lemma_div_denominator(index, c, s);
        } else {
            assert(index / 1 == index);
        }
    }
    assert(whole =~= split);
}

/// Chunk numbers walk the grid in row-major order: a later number has a later
/// offset, so no two chunks share one.
pub proof fn chunk_offsets_increase(i: int, j: int, grid: Seq<u64>, chunk_dims: Seq<u64>)
    requires
        0 <= i < j < product(grid),
        grid_fits(grid, chunk_dims),
        forall|a: int| 0 <= a < grid.len() ==> #[trigger] chunk_dims[a] > 0,
    ensures
        key_less(offset_of(i, grid, chunk_dims), offset_of(j, grid, chunk_dims)),
    decreases grid.len(),
{
    assert(all_positive(grid)) by {
        assert forall|a: int| 0 <= a < grid.len() implies #[trigger] grid[a] > 0 by {
            if grid[a] == 0 {
                crate::shape::lemma_product_zero(grid, a);
            }
        }
    }
    if grid.len() > 0 {
        let n = grid.len() - 1;
        let c = grid.last() as int;
        let d = chunk_dims[n] as int;
        let front = grid.drop_last();
        assert(grid[n] > 0 && chunk_dims[n] > 0);
        lemma_offset_split(i, grid, chunk_dims);
        lemma_offset_split(j, grid, chunk_dims);
        lemma_fundamental_div_mod(i, c);
        lemma_fundamental_div_mod(j, c);
        let (p, q) = (i / c, j / c);
        let (x, y) = (i % c, j % c);
        let total = product(front) as int;
        assert(0 <= p <= q < total) by (nonlinear_arith)
            requires
                0 <= i < j < total * c,
                i == c * p + x,
                j == c * q + y,
                0 <= x < c,
                0 <= y < c,
        ;
        assert(extent(grid, n) == c);
        assert(0 <= x * d <= (c - 1) * d && 0 <= y * d <= (c - 1) * d) by (nonlinear_arith)
            requires
                0 <= x < c,
                0 <= y < c,
                0 < d,
        ;
        if p < q {
            assert forall|axis: int| 0 <= axis < front.len() implies (#[trigger] extent(front, axis)
                - 1) * chunk_dims[axis] <= u64::MAX by {
                assert(extent(grid, axis) == extent(front, axis));
            }
            chunk_offsets_increase(p, q, front, chunk_dims);
        } else {
            assert(x < y);
            assert(x * d < y * d) by (nonlinear_arith)
                requires
                    x < y,
                    0 < d,
            ;
        }
        lemma_key_less_push(
            offset_of(p, front, chunk_dims),
            offset_of(q, front, chunk_dims),
            (x * d) as u64,
            (y * d) as u64,
        );
    }
}

} // verus!
