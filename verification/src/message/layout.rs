//! The data layout message: where a dataset's raw bytes live.
//!
//! Three storage classes matter.
//!
//! * Compact keeps the values inside the object header itself.
//! * Contiguous stores them as one run of bytes.
//! * Chunked cuts the dataset into fixed-size blocks, each stored and filtered
//!   independently, and indexes them.
//!
//! Chunking is what makes parallel reads worthwhile: each chunk is an
//! independent byte range with its own filter pipeline, so many threads can
//! fetch and decompress different chunks at once.

use vstd::prelude::*;
use vstd::slice::slice_to_vec;

use crate::cursor::{Cursor, Sizes};
#[allow(unused_imports)]
use crate::cursor::{
    address_at, length_at, skip_at, take_at, u16_at, u32_at, u8_at, uint_at, value_of, Parse,
};
use crate::error::{Error, Result};
#[allow(unused_imports)]
use crate::error::{seen, ErrorView};
use crate::text::numbered;
#[allow(unused_imports)]
use crate::text::decimal;
#[allow(unused_imports)]
use crate::views::option_view;

verus! {

/// Version 4 layout flag: a single-chunk index carries the chunk's filtered
/// size and filter mask.
pub const FLAG_SINGLE_INDEX_WITH_FILTER: u8 = 0x02;

/// How a chunked dataset's chunks are indexed. Version 4 layouts choose one.
#[derive(Debug, Clone, Copy, PartialEq, Eq, Structural)]
pub enum ChunkIndex {
    /// One chunk covers the whole dataset. The address points straight at it.
    SingleChunk {
        /// Stored size of the one chunk in bytes.
        filtered_size: u64,
        /// Filter mask for the one chunk.
        filter_mask: u32,
    },
    /// No index needed: the dataset is unfiltered and fixed-size, so a chunk's
    /// address is computed arithmetically.
    Implicit,
    /// A fixed array, for a dataset whose maximum dimensions are all fixed.
    FixedArray {
        /// Bits per page of the fixed array.
        page_bits: u8,
    },
    /// An extensible array, for a dataset with exactly one unlimited dimension.
    ExtensibleArray {
        /// Maximum bits of the index.
        max_bits: u8,
        /// Number of elements in the index block.
        index_elements: u8,
        /// Minimum number of pointers per data block.
        min_pointers: u8,
        /// Minimum number of elements per data block.
        min_elements: u8,
        /// Bits per page.
        page_bits: u8,
    },
    /// A version 2 B-tree, for a dataset with several unlimited dimensions.
    BtreeV2 {
        /// Maximum number of records in a node.
        node_size: u32,
        /// Split percentage.
        split_percent: u8,
        /// Merge percentage.
        merge_percent: u8,
    },
    /// The version 1 B-tree used by layout versions 1 through 3.
    BtreeV1,
}

/// Where and how a dataset's bytes are stored.
#[derive(Debug, Clone, PartialEq)]
pub enum Layout {
    /// Values live in the object header message itself.
    Compact {
        /// The raw bytes.
        data: Vec<u8>,
    },
    /// Values live in one contiguous run.
    Contiguous {
        /// Start address, or `None` when nothing has been written yet.
        address: Option<u64>,
        /// Length of the run in bytes.
        size: u64,
    },
    /// Values are cut into chunks.
    Chunked {
        /// Address of the chunk index, or `None` when nothing is written.
        address: Option<u64>,
        /// Shape of one chunk, in elements, matching the dataset rank.
        chunk_dims: Vec<u32>,
        /// Size of one element in bytes.
        element_size: u32,
        /// How chunks are indexed.
        index: ChunkIndex,
    },
}

/// What a [`Layout`] says.
#[verifier::ext_equal]
pub enum LayoutView {
    Compact { data: Seq<u8> },
    Contiguous { address: Option<u64>, size: u64 },
    Chunked { address: Option<u64>, chunk_dims: Seq<u32>, element_size: u32, index: ChunkIndex },
}

impl View for Layout {
    type V = LayoutView;

    open spec fn view(&self) -> LayoutView {
        match *self {
            Layout::Compact { data } => LayoutView::Compact { data: data@ },
            Layout::Contiguous { address, size } => LayoutView::Contiguous { address, size },
            Layout::Chunked { address, chunk_dims, element_size, index } => LayoutView::Chunked {
                address,
                chunk_dims: chunk_dims@,
                element_size,
                index,
            },
        }
    }
}

/// `n` four-byte fields, read behind those in `out`.
pub open spec fn u32s_at(b: Seq<u8>, p: int, n: nat, out: Seq<u32>) -> Parse<Seq<u32>>
    decreases n,
{
    if n == 0 {
        Ok((out, p))
    } else {
        match u32_at(b, p) {
            Err(e) => Err(e),
            Ok((d, q)) => u32s_at(b, q, (n - 1) as nat, out.push(d)),
        }
    }
}

/// `n` fields of `width` bytes, read behind those in `out`; each keeps its low
/// 32 bits.
pub open spec fn narrow_dims_at(b: Seq<u8>, p: int, n: nat, width: u8, out: Seq<u32>) -> Parse<
    Seq<u32>,
>
    decreases n,
{
    if n == 0 {
        Ok((out, p))
    } else {
        match uint_at(b, p, width) {
            Err(e) => Err(e),
            Ok((d, q)) => narrow_dims_at(b, q, (n - 1) as nat, width, out.push(d as u32)),
        }
    }
}

/// The product of `dims` on top of `total`, held at the largest 64-bit value.
pub open spec fn saturating_product(dims: Seq<u32>, total: u64) -> u64
    decreases dims.len(),
{
    if dims.len() == 0 {
        total
    } else {
        let next = total * dims[0];
        saturating_product(
            dims.skip(1),
            if next > u64::MAX {
                u64::MAX
            } else {
                next as u64
            },
        )
    }
}

/// `n` bytes, as a compact layout.
pub open spec fn compact_at(b: Seq<u8>, p: int, n: int) -> Parse<LayoutView> {
    match take_at(b, p, n) {
        Err(e) => Err(e),
        Ok((data, q)) => Ok((LayoutView::Compact { data }, q)),
    }
}

/// An address and a length, as a contiguous layout.
pub open spec fn contiguous_at(b: Seq<u8>, p: int, sizes: Sizes) -> Parse<LayoutView> {
    match address_at(b, p, sizes) { Err(e) => Err(e), Ok((address, p)) =>
    match length_at(b, p, sizes) { Err(e) => Err(e), Ok((size, p)) =>
        Ok((LayoutView::Contiguous { address, size }, p)) }}
}

/// The error of a chunked layout without even an element size.
pub open spec fn no_dimensions() -> ErrorView {
    ErrorView::Malformed("chunked layout declares a dimensionality of zero"@)
}

/// The chunk shape and element size of layout versions 1 through 3. The last of
/// the `dimensionality` entries is the element size.
pub open spec fn btree_chunked_at(
    b: Seq<u8>,
    p: int,
    dimensionality: u8,
    address: Option<u64>,
) -> Parse<LayoutView> {
    if dimensionality == 0 {
        Err((no_dimensions(), p))
    } else {
        match u32s_at(b, p, (dimensionality - 1) as nat, Seq::empty()) { Err(e) => Err(e), Ok((chunk_dims, p)) =>
        match u32_at(b, p) { Err(e) => Err(e), Ok((element_size, p)) =>
            Ok((LayoutView::Chunked { address, chunk_dims, element_size, index: ChunkIndex::BtreeV1 }, p))
        }}
    }
}

/// The error of a storage class that does not exist.
pub open spec fn unknown_class(class: u8) -> ErrorView {
    ErrorView::Malformed("data layout class "@ + decimal(class as nat))
}

/// A version 1 or 2 layout, from behind its version byte on. A contiguous one
/// records the shape rather than a byte count, so its size is the product.
pub open spec fn layout_v1_v2(b: Seq<u8>, p: int, sizes: Sizes) -> Parse<LayoutView> {
    match u8_at(b, p) { Err(e) => Err(e), Ok((dimensionality, p)) =>
    match u8_at(b, p) { Err(e) => Err(e), Ok((class, p)) =>
    match skip_at(b, p, 5) { Err(e) => Err(e), Ok((_, p)) =>
        if class == 0 {
            match u32s_at(b, p, dimensionality as nat, Seq::empty()) { Err(e) => Err(e), Ok((_, p)) =>
            match u32_at(b, p) { Err(e) => Err(e), Ok((size, p)) => compact_at(b, p, size as int) }}
        } else if class == 1 {
            match address_at(b, p, sizes) { Err(e) => Err(e), Ok((address, p)) =>
            match u32s_at(b, p, dimensionality as nat, Seq::empty()) { Err(e) => Err(e), Ok((dims, p)) =>
                Ok((LayoutView::Contiguous { address, size: saturating_product(dims, 1) }, p)) }}
        } else if class == 2 {
            match address_at(b, p, sizes) { Err(e) => Err(e), Ok((address, p)) =>
                btree_chunked_at(b, p, dimensionality, address) }
        } else {
            Err((unknown_class(class), p))
        }
    }}}
}

/// A version 3 layout, from behind its version byte on.
pub open spec fn layout_v3(b: Seq<u8>, p: int, sizes: Sizes) -> Parse<LayoutView> {
    match u8_at(b, p) { Err(e) => Err(e), Ok((class, p)) =>
        if class == 0 {
            match u16_at(b, p) { Err(e) => Err(e), Ok((size, p)) => compact_at(b, p, size as int) }
        } else if class == 1 {
            contiguous_at(b, p, sizes)
        } else if class == 2 {
            match u8_at(b, p) { Err(e) => Err(e), Ok((dimensionality, p)) =>
            match address_at(b, p, sizes) { Err(e) => Err(e), Ok((address, p)) =>
                btree_chunked_at(b, p, dimensionality, address) }}
        } else {
            Err((unknown_class(class), p))
        }
    }
}

/// The chunk index of a version 4 layout and its parameters. A single chunk's
/// size and mask are only stored when the dataset is filtered.
pub open spec fn chunk_index_at(b: Seq<u8>, p: int, flags: u8, sizes: Sizes) -> Parse<ChunkIndex> {
    match u8_at(b, p) { Err(e) => Err(e), Ok((index_type, p)) =>
        if index_type == 1 {
            if flags & FLAG_SINGLE_INDEX_WITH_FILTER != 0 {
                match length_at(b, p, sizes) { Err(e) => Err(e), Ok((filtered_size, p)) =>
                match u32_at(b, p) { Err(e) => Err(e), Ok((filter_mask, p)) =>
                    Ok((ChunkIndex::SingleChunk { filtered_size, filter_mask }, p)) }}
            } else {
                Ok((ChunkIndex::SingleChunk { filtered_size: 0, filter_mask: 0 }, p))
            }
        } else if index_type == 2 {
            Ok((ChunkIndex::Implicit, p))
        } else if index_type == 3 {
            match u8_at(b, p) { Err(e) => Err(e), Ok((page_bits, p)) =>
                Ok((ChunkIndex::FixedArray { page_bits }, p)) }
        } else if index_type == 4 {
            match u8_at(b, p) { Err(e) => Err(e), Ok((max_bits, p)) =>
            match u8_at(b, p) { Err(e) => Err(e), Ok((index_elements, p)) =>
            match u8_at(b, p) { Err(e) => Err(e), Ok((min_pointers, p)) =>
            match u8_at(b, p) { Err(e) => Err(e), Ok((min_elements, p)) =>
            match u8_at(b, p) { Err(e) => Err(e), Ok((page_bits, p)) =>
                Ok((ChunkIndex::ExtensibleArray {
                    max_bits, index_elements, min_pointers, min_elements, page_bits,
                }, p)) }}}}}
        } else if index_type == 5 {
            match u32_at(b, p) { Err(e) => Err(e), Ok((node_size, p)) =>
            match u8_at(b, p) { Err(e) => Err(e), Ok((split_percent, p)) =>
            match u8_at(b, p) { Err(e) => Err(e), Ok((merge_percent, p)) =>
                Ok((ChunkIndex::BtreeV2 { node_size, split_percent, merge_percent }, p)) }}}
        } else {
            Err((ErrorView::Unsupported(
                "version 4 chunk index type "@ + decimal(index_type as nat)), p))
        }
    }
}

/// A version 4 chunked layout, from behind its class byte on. As in version 3,
/// the trailing dimension entry is the element size.
pub open spec fn chunked_v4(b: Seq<u8>, p: int, sizes: Sizes) -> Parse<LayoutView> {
    match u8_at(b, p) { Err(e) => Err(e), Ok((flags, p)) =>
    match u8_at(b, p) { Err(e) => Err(e), Ok((dimensionality, p)) =>
        if dimensionality == 0 {
            Err((no_dimensions(), p))
        } else {
            match u8_at(b, p) { Err(e) => Err(e), Ok((width, p)) =>
            match narrow_dims_at(b, p, (dimensionality - 1) as nat, width, Seq::empty()) { Err(e) => Err(e), Ok((chunk_dims, p)) =>
            match uint_at(b, p, width) { Err(e) => Err(e), Ok((element_size, p)) =>
            match chunk_index_at(b, p, flags, sizes) { Err(e) => Err(e), Ok((index, p)) =>
            match address_at(b, p, sizes) { Err(e) => Err(e), Ok((address, p)) =>
                Ok((LayoutView::Chunked {
                    address, chunk_dims, element_size: element_size as u32, index,
                }, p))
            }}}}}
        }
    }}
}

/// A version 4 layout, from behind its version byte on.
pub open spec fn layout_v4(b: Seq<u8>, p: int, sizes: Sizes) -> Parse<LayoutView> {
    match u8_at(b, p) { Err(e) => Err(e), Ok((class, p)) =>
        if class == 0 {
            match u16_at(b, p) { Err(e) => Err(e), Ok((size, p)) => compact_at(b, p, size as int) }
        } else if class == 1 {
            contiguous_at(b, p, sizes)
        } else if class == 2 {
            chunked_v4(b, p, sizes)
        } else {
            Err((unknown_class(class), p))
        }
    }
}

/// The layout that a message body spells.
pub open spec fn layout_of(b: Seq<u8>, sizes: Sizes) -> std::result::Result<LayoutView, ErrorView> {
    match u8_at(b, 0) { Err((e, _)) => Err(e), Ok((version, p)) =>
        if version == 1 || version == 2 {
            value_of(layout_v1_v2(b, p, sizes))
        } else if version == 3 {
            value_of(layout_v3(b, p, sizes))
        } else if version == 4 {
            value_of(layout_v4(b, p, sizes))
        } else {
            Err(ErrorView::Unsupported("data layout message version "@ + decimal(version as nat)))
        }
    }
}

impl Layout {
    /// Parse a data layout message body.
    pub fn parse(data: &[u8], sizes: Sizes) -> (r: Result<Self>)
        ensures
            seen(r) == layout_of(data@, sizes),
    {
        let mut cur = Cursor::new(data);
        let version: u8 = cur.u8()?;
        match version {
            1 | 2 => Self::parse_v1_v2(&mut cur, sizes),
            3 => Self::parse_v3(&mut cur, sizes),
            4 => Self::parse_v4(&mut cur, sizes),
            other => Err(
                Error::Unsupported(numbered("data layout message version ", other as u64)),
            ),
        }
    }

    fn parse_v1_v2(cur: &mut Cursor<'_>, sizes: Sizes) -> (r: Result<Self>)
        ensures
            seen(r) == value_of(layout_v1_v2(old(cur).buf@, old(cur).pos as int, sizes)),
    {
        let dimensionality: u8 = cur.u8()?;
        let class: u8 = cur.u8()?;
        cur.skip(5)?;  // reserved

        match class {
            0 => {
                // Compact: the dimension list comes first, then the size and
                // the values.
                let _ = read_u32s(cur, dimensionality)?;
                let size: usize = cur.u32()? as usize;
                Ok(Layout::Compact { data: slice_to_vec(cur.take(size)?) })
            },
            1 => {
                let address = cur.address(sizes)?;
                let dims = read_u32s(cur, dimensionality)?;
                // Versions 1 and 2 record the shape rather than a byte
                // count, so the size is the product. The element size is
                // not present, so the caller multiplies it in.
                Ok(Layout::Contiguous { address, size: multiply_all(dims.as_slice()) })
            },
            2 => {
                let address = cur.address(sizes)?;
                Self::parse_btree_chunked(cur, dimensionality, address)
            },
            other => Err(Error::Malformed(numbered("data layout class ", other as u64))),
        }
    }

    /// The chunk shape and element size of layout versions 1 through 3.
    fn parse_btree_chunked(cur: &mut Cursor<'_>, dimensionality: u8, address: Option<u64>) -> (r:
        Result<Self>)
        ensures
            seen(r) == value_of(
                btree_chunked_at(old(cur).buf@, old(cur).pos as int, dimensionality, address),
            ),
    {
        // The stored dimensionality counts the trailing element-size
        // entry, so the chunk rank is one less.
        if dimensionality == 0 {
            return Err(Error::malformed("chunked layout declares a dimensionality of zero"));
        }
        let chunk_dims = read_u32s(cur, dimensionality - 1)?;
        let element_size: u32 = cur.u32()?;
        Ok(Layout::Chunked { address, chunk_dims, element_size, index: ChunkIndex::BtreeV1 })
    }

    fn parse_v3(cur: &mut Cursor<'_>, sizes: Sizes) -> (r: Result<Self>)
        ensures
            seen(r) == value_of(layout_v3(old(cur).buf@, old(cur).pos as int, sizes)),
    {
        let class: u8 = cur.u8()?;
        match class {
            0 => {
                let size: usize = cur.u16()? as usize;
                Ok(Layout::Compact { data: slice_to_vec(cur.take(size)?) })
            },
            1 => {
                let address = cur.address(sizes)?;
                let size: u64 = cur.length(sizes)?;
                Ok(Layout::Contiguous { address, size })
            },
            2 => {
                let dimensionality: u8 = cur.u8()?;
                let address = cur.address(sizes)?;
                Self::parse_btree_chunked(cur, dimensionality, address)
            },
            other => Err(Error::Malformed(numbered("data layout class ", other as u64))),
        }
    }

    fn parse_v4(cur: &mut Cursor<'_>, sizes: Sizes) -> (r: Result<Self>)
        ensures
            seen(r) == value_of(layout_v4(old(cur).buf@, old(cur).pos as int, sizes)),
    {
        let class: u8 = cur.u8()?;
        match class {
            0 => {
                let size: usize = cur.u16()? as usize;
                Ok(Layout::Compact { data: slice_to_vec(cur.take(size)?) })
            },
            1 => {
                let address = cur.address(sizes)?;
                let size: u64 = cur.length(sizes)?;
                Ok(Layout::Contiguous { address, size })
            },
            2 => {
                let flags: u8 = cur.u8()?;
                let dimensionality: u8 = cur.u8()?;
                if dimensionality == 0 {
                    return Err(Error::malformed("chunked layout declares a dimensionality of zero"));
                }
                let dim_width: u8 = cur.u8()?;
                // Like version 3, the trailing entry is the element size rather
                // than a chunk dimension.
                let chunk_dims = read_narrow_dims(cur, dimensionality - 1, dim_width)?;
                let element_size: u32 = cur.uint(dim_width)? as u32;
                let index = Self::parse_chunk_index(cur, flags, sizes)?;
                let address = cur.address(sizes)?;
                Ok(Layout::Chunked { address, chunk_dims, element_size, index })
            },
            other => Err(Error::Malformed(numbered("data layout class ", other as u64))),
        }
    }

    /// The chunk index of a version 4 layout and its parameters.
    fn parse_chunk_index(cur: &mut Cursor<'_>, flags: u8, sizes: Sizes) -> (r: Result<ChunkIndex>)
        ensures
            final(cur).moved(
                *old(cur),
                match r {
                    Ok(v) => Ok(v),
                    Err(e) => Err(e@),
                },
                chunk_index_at(old(cur).buf@, old(cur).pos as int, flags, sizes),
            ),
    {
        let index_type: u8 = cur.u8()?;
        match index_type {
            1 => {
                // The size and mask are only stored when the dataset is
                // filtered, which this flag records.
                if flags & FLAG_SINGLE_INDEX_WITH_FILTER != 0 {
                    let filtered_size: u64 = cur.length(sizes)?;
                    let filter_mask: u32 = cur.u32()?;
                    Ok(ChunkIndex::SingleChunk { filtered_size, filter_mask })
                } else {
                    Ok(ChunkIndex::SingleChunk { filtered_size: 0, filter_mask: 0 })
                }
            },
            2 => Ok(ChunkIndex::Implicit),
            3 => Ok(ChunkIndex::FixedArray { page_bits: cur.u8()? }),
            4 => Ok(
                ChunkIndex::ExtensibleArray {
                    max_bits: cur.u8()?,
                    index_elements: cur.u8()?,
                    min_pointers: cur.u8()?,
                    min_elements: cur.u8()?,
                    page_bits: cur.u8()?,
                },
            ),
            5 => Ok(
                ChunkIndex::BtreeV2 {
                    node_size: cur.u32()?,
                    split_percent: cur.u8()?,
                    merge_percent: cur.u8()?,
                },
            ),
            other => Err(Error::Unsupported(numbered("version 4 chunk index type ", other as u64))),
        }
    }

    /// Shape of one chunk, when the dataset is chunked.
    pub fn chunk_dims(&self) -> (r: Option<&[u32]>)
        ensures
            option_view(r) == match self@ {
                LayoutView::Chunked { chunk_dims, .. } => Some(chunk_dims),
                _ => None,
            },
    {
        match self {
            Layout::Chunked { chunk_dims, .. } => Some(chunk_dims.as_slice()),
            _ => None,
        }
    }
}

pub(crate) fn read_u32s(cur: &mut Cursor<'_>, n: u8) -> (r: Result<Vec<u32>>)
    ensures
        final(cur).moved(
            *old(cur),
            seen(r),
            u32s_at(old(cur).buf@, old(cur).pos as int, n as nat, Seq::empty()),
        ),
        r is Ok && old(cur).pos <= old(cur).buf@.len() ==> old(cur).pos <= final(cur).pos
            <= old(cur).buf@.len(),
{
    let mut out: Vec<u32> = Vec::new();
    let mut left: u8 = n;
    while left > 0
        invariant
            cur.buf == old(cur).buf,
            old(cur).pos <= old(cur).buf@.len() ==> old(cur).pos <= cur.pos <= old(cur).buf@.len(),
            u32s_at(old(cur).buf@, old(cur).pos as int, n as nat, Seq::empty()) == u32s_at(
                cur.buf@,
                cur.pos as int,
                left as nat,
                out@,
            ),
        decreases left,
    {
        let d: u32 = cur.u32()?;
        out.push(d);
        left = left - 1;
    }
    Ok(out)
}

fn read_narrow_dims(cur: &mut Cursor<'_>, n: u8, width: u8) -> (r: Result<Vec<u32>>)
    ensures
        final(cur).moved(
            *old(cur),
            seen(r),
            narrow_dims_at(old(cur).buf@, old(cur).pos as int, n as nat, width, Seq::empty()),
        ),
{
    let mut out: Vec<u32> = Vec::new();
    let mut left: u8 = n;
    while left > 0
        invariant
            cur.buf == old(cur).buf,
            narrow_dims_at(old(cur).buf@, old(cur).pos as int, n as nat, width, Seq::empty())
                == narrow_dims_at(cur.buf@, cur.pos as int, left as nat, width, out@),
        decreases left,
    {
        let d: u64 = cur.uint(width)?;
        out.push(d as u32);
        left = left - 1;
    }
    Ok(out)
}

fn multiply_all(dims: &[u32]) -> (r: u64)
    ensures
        r == saturating_product(dims@, 1),
{
    let mut total: u64 = 1;
    let mut i: usize = 0;
    assert(dims@.skip(0) =~= dims@);
    while i < dims.len()
        invariant
            i <= dims@.len(),
            saturating_product(dims@, 1) == saturating_product(dims@.skip(i as int), total),
        decreases dims@.len() - i,
    {
        assert(dims@.skip(i as int).skip(1) =~= dims@.skip(i + 1));
        total = match total.checked_mul(dims[i] as u64) {
            Some(t) => t,
            None => u64::MAX,
        };
        i = i + 1;
    }
    total
}

} // verus!
