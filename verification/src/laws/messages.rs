//! Messages of an object header come back as they were written.

use vstd::prelude::*;

#[allow(unused_imports)]
use crate::bytes::pow256;
#[allow(unused_imports)]
use crate::cursor::{
    address_at, length_at, skip_at, take_at, u16_at, u32_at, u32_in, u8_at, uint_at, value_of,
    Parse, Sizes,
};
#[allow(unused_imports)]
use crate::error::ErrorView;
#[allow(unused_imports)]
use crate::laws::arrays::{extents_multiply, span};
#[allow(unused_imports)]
use crate::laws::writing::{
    address, addressable, holds, le, lemma_holds_address, lemma_holds_both, lemma_holds_one,
    lemma_holds_taken, lemma_holds_u16, lemma_holds_u32, lemma_holds_uint, lemma_le_len,
};
#[allow(unused_imports)]
use crate::message::dataspace::{dataspace_of, dims_at, DataspaceKind, DataspaceView};
#[allow(unused_imports)]
use crate::message::fillvalue::{fill_byte, fill_value_of};
#[allow(unused_imports)]
use crate::message::layout::{
    chunk_index_at, layout_of, narrow_dims_at, saturating_product, u32s_at, ChunkIndex, LayoutView,
};
#[allow(unused_imports)]
use crate::message::shared::{shared_message, SharedLocation, SharedMessage};

verus! {

/// What the bits of a byte of flags are.
pub proof fn lemma_flags(x: u8)
    ensures
        (x & 0x01 != 0) == (x % 2 == 1),
        (x & 0x02 != 0) == ((x / 2) % 2 == 1),
        (x & 0x04 != 0) == ((x / 4) % 2 == 1),
        (x & 0x10 != 0) == ((x / 16) % 2 == 1),
        (x & 0x20 != 0) == ((x / 32) % 2 == 1),
{
    assert(((x & 0x01 != 0) == (x % 2 == 1)) && ((x & 0x02 != 0) == ((x / 2) % 2 == 1)) && ((x
        & 0x04 != 0) == ((x / 4) % 2 == 1)) && ((x & 0x10 != 0) == ((x / 16) % 2 == 1)) && ((x
        & 0x20 != 0) == ((x / 32) % 2 == 1))) by (bit_vector);
}

// ── dataspaces ─────────────────────────────────────────────────────────────

/// Extents, each as wide as a length.
pub open spec fn extents_written(dims: Seq<u64>, width: nat) -> Seq<u8>
    decreases dims.len(),
{
    if dims.len() == 0 {
        Seq::empty()
    } else {
        le(dims[0] as nat, width) + extents_written(dims.skip(1), width)
    }
}

/// The extents can be written in this width.
pub open spec fn all_narrow(dims: Seq<u64>, width: nat) -> bool {
    forall|i: int| 0 <= i < dims.len() ==> #[trigger] dims[i] < pow256(width)
}

proof fn lemma_extents(b: Seq<u8>, p: int, dims: Seq<u64>, sizes: Sizes, out: Seq<u64>)
    requires
        0 < sizes.length <= 8,
        all_narrow(dims, sizes.length as nat),
        holds(b, p, extents_written(dims, sizes.length as nat)),
    ensures
        dims_at(b, p, dims.len(), sizes, out) == Parse::<Seq<u64>>::Ok(
            (out + dims, p + dims.len() * sizes.length),
        ),
        extents_written(dims, sizes.length as nat).len() == dims.len() * sizes.length,
    decreases dims.len(),
{
    let w = sizes.length as nat;
    if dims.len() > 0 {
        let rest = dims.skip(1);
        assert(dims[0] < pow256(w));
        lemma_le_len(dims[0] as nat, w);
        lemma_holds_both(b, p, le(dims[0] as nat, w), extents_written(rest, w));
        lemma_holds_uint(b, p, dims[0] as nat, sizes.length);
        assert(all_narrow(rest, w)) by {
            assert forall|i: int| 0 <= i < rest.len() implies #[trigger] rest[i] < pow256(w) by {
                assert(dims[i + 1] < pow256(w));
            }
        }
        let more = out.push(dims[0]);
        lemma_extents(b, p + w, rest, sizes, more);
        assert(more + rest =~= out + dims);
        let n = dims.len() as int;
        assert(n * w == (n - 1) * w + w) by (nonlinear_arith);
    } else {
        assert(out + dims =~= out);
        assert(0 * w == 0);
    }
}

/// The bytes behind the head of a dataspace: the extents, and the largest extents where
/// there are any.
pub open spec fn space_written(dims: Seq<u64>, max: Option<Seq<u64>>, width: nat) -> Seq<u8> {
    extents_written(dims, width) + match max {
        Some(m) => extents_written(m, width),
        None => Seq::empty(),
    }
}

/// The dataspace can be written.
pub open spec fn space_fits(dims: Seq<u64>, max: Option<Seq<u64>>, sizes: Sizes) -> bool {
    &&& 0 < sizes.length <= 8
    &&& dims.len() <= 255
    &&& all_narrow(dims, sizes.length as nat)
    &&& max matches Some(m) ==> m.len() == dims.len() && all_narrow(m, sizes.length as nat)
}

proof fn lemma_space(
    b: Seq<u8>,
    p: int,
    dims: Seq<u64>,
    max: Option<Seq<u64>>,
    flags: u8,
    sizes: Sizes,
    rest: Seq<u8>,
)
    requires
        space_fits(dims, max, sizes),
        flags % 2 == 1 <==> max is Some,
        holds(b, p, space_written(dims, max, sizes.length as nat) + rest),
    ensures
        ({
            let p1 = p + dims.len() * sizes.length;
            let p2 = p + space_written(dims, max, sizes.length as nat).len();
            &&& dims_at(b, p, dims.len(), sizes, Seq::empty()) == Parse::<Seq<u64>>::Ok((dims, p1))
            &&& crate::message::dataspace::max_dims_at(b, p1, dims.len(), sizes, flags)
                == Parse::<Option<Seq<u64>>>::Ok((max, p2))
            &&& holds(b, p2, rest)
        }),
{
    let w = sizes.length as nat;
    lemma_flags(flags);
    lemma_holds_both(b, p, space_written(dims, max, w), rest);
    match max {
        Some(m) => {
            lemma_holds_both(b, p, extents_written(dims, w), extents_written(m, w));
            lemma_extents(b, p, dims, sizes, Seq::empty());
            lemma_extents(b, p + dims.len() * w, m, sizes, Seq::empty());
            assert(Seq::<u64>::empty() + m =~= m);
        },
        None => {
            lemma_holds_both(b, p, extents_written(dims, w), Seq::empty());
            lemma_extents(b, p, dims, sizes, Seq::empty());
        },
    }
    assert(Seq::<u64>::empty() + dims =~= dims);
}

/// A version 1 dataspace comes back as it was written: a scalar without extents, an
/// array with them.
pub proof fn a_version_one_dataspace_reads_as_it_was_written(
    b: Seq<u8>,
    dims: Seq<u64>,
    max: Option<Seq<u64>>,
    flags: u8,
    reserved: Seq<u8>,
    rest: Seq<u8>,
    sizes: Sizes,
)
    requires
        space_fits(dims, max, sizes),
        flags < 2,
        flags == 1 <==> max is Some,
        reserved.len() == 5,
        b == seq![1u8] + (seq![dims.len() as u8] + (seq![flags] + (reserved + (space_written(
            dims,
            max,
            sizes.length as nat,
        ) + rest)))),
    ensures
        dataspace_of(b, sizes) matches Ok(s) && s.dims == dims && s.max_dims == max && (s.kind
            is Scalar <==> dims.len() == 0) && (s.kind is Simple <==> dims.len() > 0),
{
    let t3 = space_written(dims, max, sizes.length as nat) + rest;
    let t2 = reserved + t3;
    let t1 = seq![flags] + t2;
    assert(b.subrange(0, b.len() as int) =~= b);
    assert(holds(b, 0, b));
    lemma_holds_both(b, 0, seq![1u8], seq![dims.len() as u8] + t1);
    lemma_holds_one(b, 0, 1);
    lemma_holds_both(b, 1, seq![dims.len() as u8], t1);
    lemma_holds_one(b, 1, dims.len() as u8);
    lemma_holds_both(b, 2, seq![flags], t2);
    lemma_holds_one(b, 2, flags);
    lemma_holds_both(b, 3, reserved, t3);
    lemma_space(b, 8, dims, max, flags, sizes, rest);
    lemma_flags(flags);
}

/// A version 2 dataspace comes back as it was written. Its type says what it is: 0 for
/// one value, 1 for an array, 2 for nothing at all.
pub proof fn a_version_two_dataspace_reads_as_it_was_written(
    b: Seq<u8>,
    code: u8,
    dims: Seq<u64>,
    max: Option<Seq<u64>>,
    flags: u8,
    rest: Seq<u8>,
    sizes: Sizes,
)
    requires
        space_fits(dims, max, sizes),
        flags % 2 == 1 <==> max is Some,
        b == seq![2u8] + (seq![dims.len() as u8] + (seq![flags] + (seq![code] + (space_written(
            dims,
            max,
            sizes.length as nat,
        ) + rest)))),
    ensures
        code > 2 ==> dataspace_of(b, sizes) is Err,
        code <= 2 ==> (dataspace_of(b, sizes) matches Ok(s) && {
            &&& s.kind is Scalar <==> code == 0
            &&& s.kind is Simple <==> code == 1
            &&& s.kind is Null <==> code == 2
            &&& code == 1 ==> s.dims == dims && s.max_dims == max
            &&& code != 1 ==> s.dims.len() == 0
        }),
{
    let t3 = space_written(dims, max, sizes.length as nat) + rest;
    let t2 = seq![code] + t3;
    let t1 = seq![flags] + t2;
    assert(b.subrange(0, b.len() as int) =~= b);
    assert(holds(b, 0, b));
    lemma_holds_both(b, 0, seq![2u8], seq![dims.len() as u8] + t1);
    lemma_holds_one(b, 0, 2);
    lemma_holds_both(b, 1, seq![dims.len() as u8], t1);
    lemma_holds_one(b, 1, dims.len() as u8);
    lemma_holds_both(b, 2, seq![flags], t2);
    lemma_holds_one(b, 2, flags);
    lemma_holds_both(b, 3, seq![code], t3);
    lemma_holds_one(b, 3, code);
    lemma_space(b, 4, dims, max, flags, sizes, rest);
}

/// An array has the product of its extents many values, one value is one, and nothing
/// is none.
pub proof fn a_dataspace_counts_its_values(s: DataspaceView)
    ensures
        s.kind is Simple ==> s.count() == span(s.dims, 0),
        s.kind is Scalar ==> s.count() == 1,
        s.kind is Null ==> s.count() == 0,
{
    extents_multiply(s.dims);
}

// ── fill values ────────────────────────────────────────────────────────────

/// A value behind its size.
pub open spec fn sized_written(value: Seq<u8>) -> Seq<u8> {
    le(value.len(), 4) + value
}

proof fn lemma_sized(b: Seq<u8>, p: int, value: Seq<u8>, rest: Seq<u8>)
    requires
        value.len() <= u32::MAX,
        holds(b, p, sized_written(value) + rest),
    ensures
        crate::message::fillvalue::sized_value_at(b, p) == if value.len() == 0 {
            None
        } else {
            Some(value)
        },
{
    lemma_le_len(value.len(), 4);
    lemma_holds_both(b, p, sized_written(value), rest);
    lemma_holds_both(b, p, le(value.len(), 4), value);
    lemma_holds_u32(b, p, value.len());
}

/// A fill value comes back as it was written, in each version: version 1 always has
/// one, version 2 where its fourth byte is not zero, version 3 where bit 5 of its flags
/// is set. One without bytes is none.
pub proof fn a_fill_value_reads_as_it_was_written(
    b: Seq<u8>,
    version: u8,
    x: u8,
    y: u8,
    defined: u8,
    value: Seq<u8>,
    rest: Seq<u8>,
)
    requires
        value.len() <= u32::MAX,
        1 <= version <= 3,
        version < 3 ==> b == seq![version] + (seq![x] + (seq![y] + (seq![defined] + (sized_written(
            value,
        ) + rest)))),
        version == 3 ==> b == seq![version] + (seq![defined] + (sized_written(value) + rest)),
    ensures
        ({
            let present = version == 1 || (version == 2 && defined != 0) || (version == 3 && (
            defined / 32) % 2 == 1);
            fill_value_of(b) == std::result::Result::<Option<Seq<u8>>, ErrorView>::Ok(
                if present && value.len() > 0 {
                    Some(value)
                } else {
                    None
                },
            )
        }),
{
    let tail = sized_written(value) + rest;
    lemma_flags(defined);
    assert(b.subrange(0, b.len() as int) =~= b);
    assert(holds(b, 0, b));
    if version < 3 {
        let t2 = seq![y] + (seq![defined] + tail);
        lemma_holds_both(b, 0, seq![version], seq![x] + t2);
        lemma_holds_one(b, 0, version);
        lemma_holds_both(b, 1, seq![x], t2);
        lemma_holds_both(b, 2, seq![y], seq![defined] + tail);
        lemma_holds_both(b, 3, seq![defined], tail);
        lemma_holds_one(b, 3, defined);
        lemma_sized(b, 4, value, rest);
    } else {
        lemma_holds_both(b, 0, seq![version], seq![defined] + tail);
        lemma_holds_one(b, 0, version);
        lemma_holds_both(b, 1, seq![defined], tail);
        lemma_holds_one(b, 1, defined);
        lemma_sized(b, 2, value, rest);
    }
}

// ── layouts ────────────────────────────────────────────────────────────────

/// Extents, each in four bytes.
pub open spec fn small_extents_written(dims: Seq<u32>, width: nat) -> Seq<u8>
    decreases dims.len(),
{
    if dims.len() == 0 {
        Seq::empty()
    } else {
        le(dims[0] as nat, width) + small_extents_written(dims.skip(1), width)
    }
}

proof fn lemma_small_extents(b: Seq<u8>, p: int, dims: Seq<u32>, out: Seq<u32>)
    requires
        holds(b, p, small_extents_written(dims, 4)),
    ensures
        u32s_at(b, p, dims.len(), out) == Parse::<Seq<u32>>::Ok((out + dims, p + 4 * dims.len())),
        small_extents_written(dims, 4).len() == 4 * dims.len(),
    decreases dims.len(),
{
    if dims.len() > 0 {
        let rest = dims.skip(1);
        lemma_le_len(dims[0] as nat, 4);
        lemma_holds_both(b, p, le(dims[0] as nat, 4), small_extents_written(rest, 4));
        lemma_holds_u32(b, p, dims[0] as nat);
        let more = out.push(dims[0]);
        lemma_small_extents(b, p + 4, rest, more);
        assert(more + rest =~= out + dims);
    } else {
        assert(out + dims =~= out);
    }
}

/// The extents can be written in this width.
pub open spec fn all_small(dims: Seq<u32>, width: nat) -> bool {
    forall|i: int| 0 <= i < dims.len() ==> #[trigger] dims[i] < pow256(width)
}

proof fn lemma_narrow_extents(b: Seq<u8>, p: int, dims: Seq<u32>, width: u8, out: Seq<u32>)
    requires
        0 < width <= 8,
        all_small(dims, width as nat),
        holds(b, p, small_extents_written(dims, width as nat)),
    ensures
        narrow_dims_at(b, p, dims.len(), width, out) == Parse::<Seq<u32>>::Ok(
            (out + dims, p + dims.len() * width),
        ),
        small_extents_written(dims, width as nat).len() == dims.len() * width,
    decreases dims.len(),
{
    let w = width as nat;
    if dims.len() > 0 {
        let rest = dims.skip(1);
        assert(dims[0] < pow256(w));
        lemma_le_len(dims[0] as nat, w);
        lemma_holds_both(b, p, le(dims[0] as nat, w), small_extents_written(rest, w));
        lemma_holds_uint(b, p, dims[0] as nat, width);
        assert(all_small(rest, w)) by {
            assert forall|i: int| 0 <= i < rest.len() implies #[trigger] rest[i] < pow256(w) by {
                assert(dims[i + 1] < pow256(w));
            }
        }
        let more = out.push(dims[0]);
        lemma_narrow_extents(b, p + w, rest, width, more);
        assert(more + rest =~= out + dims);
        let n = dims.len() as int;
        assert(n * w == (n - 1) * w + w) by (nonlinear_arith);
    } else {
        assert(out + dims =~= out);
        assert(0 * w == 0);
    }
}

/// Compact storage, in versions 3 and 4: its size in two bytes, and the values.
pub proof fn a_compact_layout_reads_as_it_was_written(
    b: Seq<u8>,
    version: u8,
    data: Seq<u8>,
    rest: Seq<u8>,
    sizes: Sizes,
)
    requires
        version == 3 || version == 4,
        data.len() <= u16::MAX,
        b == seq![version] + (seq![0u8] + (le(data.len(), 2) + (data + rest))),
    ensures
        layout_of(b, sizes) == std::result::Result::<LayoutView, ErrorView>::Ok(
            LayoutView::Compact { data },
        ),
{
    assert(b.subrange(0, b.len() as int) =~= b);
    assert(holds(b, 0, b));
    lemma_le_len(data.len(), 2);
    lemma_holds_both(b, 0, seq![version], seq![0u8] + (le(data.len(), 2) + (data + rest)));
    lemma_holds_one(b, 0, version);
    lemma_holds_both(b, 1, seq![0u8], le(data.len(), 2) + (data + rest));
    lemma_holds_one(b, 1, 0);
    lemma_holds_both(b, 2, le(data.len(), 2), data + rest);
    lemma_holds_u16(b, 2, data.len());
    lemma_holds_both(b, 4, data, rest);
    lemma_holds_taken(b, 4, data);
}

/// Contiguous storage, in versions 3 and 4: where it is, and its size.
pub proof fn a_contiguous_layout_reads_as_it_was_written(
    b: Seq<u8>,
    version: u8,
    at: Option<u64>,
    size: u64,
    rest: Seq<u8>,
    sizes: Sizes,
)
    requires
        version == 3 || version == 4,
        addressable(at, sizes),
        0 < sizes.length <= 8,
        size < pow256(sizes.length as nat),
        b == seq![version] + (seq![1u8] + (address(at, sizes) + (le(
            size as nat,
            sizes.length as nat,
        ) + rest))),
    ensures
        layout_of(b, sizes) == std::result::Result::<LayoutView, ErrorView>::Ok(
            LayoutView::Contiguous { address: at, size },
        ),
{
    let n = le(size as nat, sizes.length as nat);
    assert(b.subrange(0, b.len() as int) =~= b);
    assert(holds(b, 0, b));
    lemma_le_len(size as nat, sizes.length as nat);
    lemma_holds_both(b, 0, seq![version], seq![1u8] + (address(at, sizes) + (n + rest)));
    lemma_holds_one(b, 0, version);
    lemma_holds_both(b, 1, seq![1u8], address(at, sizes) + (n + rest));
    lemma_holds_one(b, 1, 1);
    lemma_holds_both(b, 2, address(at, sizes), n + rest);
    lemma_holds_address(b, 2, at, sizes);
    lemma_holds_both(b, 2 + sizes.offset, n, rest);
    lemma_holds_uint(b, 2 + sizes.offset, size as nat, sizes.length);
}

/// Chunked storage, in version 3: one more than the number of axes, where the B-tree
/// is, the extents of a chunk, and the size of an element.
pub proof fn a_chunked_layout_reads_as_it_was_written(
    b: Seq<u8>,
    at: Option<u64>,
    dims: Seq<u32>,
    size: u32,
    rest: Seq<u8>,
    sizes: Sizes,
)
    requires
        addressable(at, sizes),
        dims.len() < 255,
        b == seq![3u8] + (seq![2u8] + (seq![(dims.len() + 1) as u8] + (address(at, sizes) + (
        small_extents_written(dims, 4) + (le(size as nat, 4) + rest))))),
    ensures
        layout_of(b, sizes) == std::result::Result::<LayoutView, ErrorView>::Ok(
            LayoutView::Chunked {
                address: at,
                chunk_dims: dims,
                element_size: size,
                index: ChunkIndex::BtreeV1,
            },
        ),
{
    let n = (dims.len() + 1) as u8;
    let t3 = small_extents_written(dims, 4) + (le(size as nat, 4) + rest);
    let t2 = address(at, sizes) + t3;
    assert(b.subrange(0, b.len() as int) =~= b);
    assert(holds(b, 0, b));
    lemma_le_len(size as nat, 4);
    lemma_holds_both(b, 0, seq![3u8], seq![2u8] + (seq![n] + t2));
    lemma_holds_one(b, 0, 3);
    lemma_holds_both(b, 1, seq![2u8], seq![n] + t2);
    lemma_holds_one(b, 1, 2);
    lemma_holds_both(b, 2, seq![n], t2);
    lemma_holds_one(b, 2, n);
    lemma_holds_both(b, 3, address(at, sizes), t3);
    lemma_holds_address(b, 3, at, sizes);
    let p = 3 + sizes.offset;
    lemma_holds_both(b, p, small_extents_written(dims, 4), le(size as nat, 4) + rest);
    lemma_small_extents(b, p, dims, Seq::empty());
    assert(Seq::<u32>::empty() + dims =~= dims);
    let q = p + 4 * dims.len();
    lemma_holds_both(b, q, le(size as nat, 4), rest);
    lemma_holds_u32(b, q, size as nat);
}

/// The product of extents.
pub open spec fn multiplied(dims: Seq<u32>) -> int
    decreases dims.len(),
{
    if dims.len() == 0 {
        1
    } else {
        dims[0] * multiplied(dims.skip(1))
    }
}

proof fn lemma_multiplied(dims: Seq<u32>, total: u64)
    requires
        multiplied(dims) * total <= u64::MAX,
        forall|i: int| 0 <= i < dims.len() ==> #[trigger] dims[i] > 0,
    ensures
        saturating_product(dims, total) == total * multiplied(dims),
        multiplied(dims) > 0,
    decreases dims.len(),
{
    if dims.len() > 0 {
        let rest = dims.skip(1);
        let (x, m, t) = (dims[0] as int, multiplied(rest), total as int);
        assert(dims[0] > 0);
        assert forall|i: int| 0 <= i < rest.len() implies #[trigger] rest[i] > 0 by {
            assert(dims[i + 1] > 0);
        }
        lemma_multiplied_positive(rest);
        assert(t * x <= (x * m) * t && m * (t * x) == (x * m) * t && (t * x) * m == t * (x * m))
            by (nonlinear_arith)
            requires
                m >= 1,
                x >= 1,
                t >= 0,
        ;
        lemma_multiplied(rest, (total * dims[0]) as u64);
        assert(x * m > 0) by (nonlinear_arith)
            requires
                x > 0,
                m > 0,
        ;
    } else {
        assert(total * 1 == total);
    }
}

proof fn lemma_multiplied_positive(dims: Seq<u32>)
    requires
        forall|i: int| 0 <= i < dims.len() ==> #[trigger] dims[i] > 0,
    ensures
        multiplied(dims) > 0,
    decreases dims.len(),
{
    if dims.len() > 0 {
        let rest = dims.skip(1);
        assert(dims[0] > 0);
        assert forall|i: int| 0 <= i < rest.len() implies #[trigger] rest[i] > 0 by {
            assert(dims[i + 1] > 0);
        }
        lemma_multiplied_positive(rest);
        let (x, m) = (dims[0] as int, multiplied(rest));
        assert(x * m > 0) by (nonlinear_arith)
            requires
                x > 0,
                m > 0,
        ;
    }
}

/// The head of a layout in versions 1 and 2: how many numbers follow, the class, and
/// five bytes that say nothing.
pub open spec fn old_layout_written(
    version: u8,
    n: u8,
    class: u8,
    reserved: Seq<u8>,
    rest: Seq<u8>,
) -> Seq<u8> {
    seq![version] + (seq![n] + (seq![class] + (reserved + rest)))
}

proof fn lemma_old_layout(version: u8, n: u8, class: u8, reserved: Seq<u8>, rest: Seq<u8>)
    requires
        reserved.len() == 5,
    ensures
        ({
            let b = old_layout_written(version, n, class, reserved, rest);
            &&& u8_at(b, 0) == Parse::<u8>::Ok((version, 1))
            &&& u8_at(b, 1) == Parse::<u8>::Ok((n, 2))
            &&& u8_at(b, 2) == Parse::<u8>::Ok((class, 3))
            &&& skip_at(b, 3, 5) == Parse::<()>::Ok(((), 8))
            &&& holds(b, 8, rest)
        }),
{
    let b = old_layout_written(version, n, class, reserved, rest);
    assert(b.subrange(0, b.len() as int) =~= b);
    assert(holds(b, 0, b));
    lemma_holds_both(b, 0, seq![version], seq![n] + (seq![class] + (reserved + rest)));
    lemma_holds_one(b, 0, version);
    lemma_holds_both(b, 1, seq![n], seq![class] + (reserved + rest));
    lemma_holds_one(b, 1, n);
    lemma_holds_both(b, 2, seq![class], reserved + rest);
    lemma_holds_one(b, 2, class);
    lemma_holds_both(b, 3, reserved, rest);
    lemma_holds_taken(b, 3, reserved);
}

/// Contiguous storage, in versions 1 and 2: where it is, and the extents, whose product
/// is its size.
pub proof fn an_old_contiguous_layout_reads_as_it_was_written(
    version: u8,
    at: Option<u64>,
    dims: Seq<u32>,
    reserved: Seq<u8>,
    rest: Seq<u8>,
    sizes: Sizes,
)
    requires
        version == 1 || version == 2,
        reserved.len() == 5,
        addressable(at, sizes),
        dims.len() <= 255,
        multiplied(dims) <= u64::MAX,
        forall|i: int| 0 <= i < dims.len() ==> #[trigger] dims[i] > 0,
    ensures
        layout_of(
            old_layout_written(
                version,
                dims.len() as u8,
                1,
                reserved,
                address(at, sizes) + (small_extents_written(dims, 4) + rest),
            ),
            sizes,
        ) == std::result::Result::<LayoutView, ErrorView>::Ok(
            LayoutView::Contiguous { address: at, size: multiplied(dims) as u64 },
        ),
{
    let tail = address(at, sizes) + (small_extents_written(dims, 4) + rest);
    let b = old_layout_written(version, dims.len() as u8, 1, reserved, tail);
    lemma_old_layout(version, dims.len() as u8, 1, reserved, tail);
    lemma_holds_both(b, 8, address(at, sizes), small_extents_written(dims, 4) + rest);
    lemma_holds_address(b, 8, at, sizes);
    let p = 8 + sizes.offset;
    lemma_holds_both(b, p, small_extents_written(dims, 4), rest);
    lemma_small_extents(b, p, dims, Seq::empty());
    assert(Seq::<u32>::empty() + dims =~= dims);
    assert(multiplied(dims) * 1 == multiplied(dims));
    lemma_multiplied(dims, 1);
}

/// Chunked storage, in versions 1 and 2.
#[verifier::spinoff_prover]
#[verifier::rlimit(80)]
pub proof fn an_old_chunked_layout_reads_as_it_was_written(
    version: u8,
    at: Option<u64>,
    dims: Seq<u32>,
    size: u32,
    reserved: Seq<u8>,
    rest: Seq<u8>,
    sizes: Sizes,
)
    requires
        version == 1 || version == 2,
        reserved.len() == 5,
        addressable(at, sizes),
        dims.len() < 255,
    ensures
        layout_of(
            old_layout_written(
                version,
                (dims.len() + 1) as u8,
                2,
                reserved,
                address(at, sizes) + (small_extents_written(dims, 4) + (le(size as nat, 4)
                    + rest)),
            ),
            sizes,
        ) == std::result::Result::<LayoutView, ErrorView>::Ok(
            LayoutView::Chunked {
                address: at,
                chunk_dims: dims,
                element_size: size,
                index: ChunkIndex::BtreeV1,
            },
        ),
{
    let t = small_extents_written(dims, 4) + (le(size as nat, 4) + rest);
    let tail = address(at, sizes) + t;
    let n = (dims.len() + 1) as u8;
    let b = old_layout_written(version, n, 2, reserved, tail);
    lemma_old_layout(version, n, 2, reserved, tail);
    lemma_le_len(size as nat, 4);
    lemma_holds_both(b, 8, address(at, sizes), t);
    lemma_holds_address(b, 8, at, sizes);
    let p = 8 + sizes.offset;
    lemma_holds_both(b, p, small_extents_written(dims, 4), le(size as nat, 4) + rest);
    lemma_small_extents(b, p, dims, Seq::empty());
    assert(Seq::<u32>::empty() + dims =~= dims);
    let q = p + 4 * dims.len();
    lemma_holds_both(b, q, le(size as nat, 4), rest);
    lemma_holds_u32(b, q, size as nat);
}

/// Compact storage, in versions 1 and 2: the extents, the size, and the values.
pub proof fn an_old_compact_layout_reads_as_it_was_written(
    version: u8,
    dims: Seq<u32>,
    data: Seq<u8>,
    reserved: Seq<u8>,
    rest: Seq<u8>,
    sizes: Sizes,
)
    requires
        version == 1 || version == 2,
        reserved.len() == 5,
        dims.len() <= 255,
        data.len() <= u32::MAX,
    ensures
        layout_of(
            old_layout_written(
                version,
                dims.len() as u8,
                0,
                reserved,
                small_extents_written(dims, 4) + (le(data.len(), 4) + (data + rest)),
            ),
            sizes,
        ) == std::result::Result::<LayoutView, ErrorView>::Ok(LayoutView::Compact { data }),
{
    let t = le(data.len(), 4) + (data + rest);
    let tail = small_extents_written(dims, 4) + t;
    let n = dims.len() as u8;
    let b = old_layout_written(version, n, 0, reserved, tail);
    lemma_old_layout(version, n, 0, reserved, tail);
    lemma_le_len(data.len(), 4);
    lemma_holds_both(b, 8, small_extents_written(dims, 4), t);
    lemma_small_extents(b, 8, dims, Seq::empty());
    let q: int = 8 + 4 * dims.len() as int;
    lemma_holds_both(b, q, le(data.len(), 4), data + rest);
    lemma_holds_u32(b, q, data.len());
    lemma_holds_both(b, q + 4, data, rest);
    lemma_holds_taken(b, q + 4, data);
}

/// The description of a chunk index in version 4, behind its type.
pub open spec fn index_written(index: ChunkIndex, flags: u8, sizes: Sizes) -> Seq<u8> {
    match index {
        ChunkIndex::SingleChunk { filtered_size, filter_mask } => seq![1u8] + if (flags / 2) % 2
            == 1 {
            le(filtered_size as nat, sizes.length as nat) + le(filter_mask as nat, 4)
        } else {
            Seq::empty()
        },
        ChunkIndex::Implicit => seq![2u8] + Seq::empty(),
        ChunkIndex::FixedArray { page_bits } => seq![3u8] + seq![page_bits],
        ChunkIndex::ExtensibleArray {
            max_bits,
            index_elements,
            min_pointers,
            min_elements,
            page_bits,
        } => seq![4u8] + (seq![max_bits] + (seq![index_elements] + (seq![min_pointers] + (seq![
            min_elements,
        ] + seq![page_bits])))),
        ChunkIndex::BtreeV2 { node_size, split_percent, merge_percent } => seq![5u8] + (le(
            node_size as nat,
            4,
        ) + (seq![split_percent] + seq![merge_percent])),
        ChunkIndex::BtreeV1 => seq![0u8] + Seq::empty(),
    }
}

/// The index can be described in version 4.
pub open spec fn index_fits(index: ChunkIndex, flags: u8, sizes: Sizes) -> bool {
    &&& 0 < sizes.length <= 8
    &&& !(index is BtreeV1)
    &&& index matches ChunkIndex::SingleChunk { filtered_size, filter_mask } ==> if (flags / 2) % 2
        == 1 {
        filtered_size < pow256(sizes.length as nat)
    } else {
        filtered_size == 0 && filter_mask == 0
    }
}

proof fn lemma_index(b: Seq<u8>, p: int, index: ChunkIndex, flags: u8, sizes: Sizes)
    requires
        index_fits(index, flags, sizes),
        holds(b, p, index_written(index, flags, sizes)),
    ensures
        chunk_index_at(b, p, flags, sizes) == Parse::<ChunkIndex>::Ok(
            (index, p + index_written(index, flags, sizes).len()),
        ),
{
    lemma_flags(flags);
    match index {
        ChunkIndex::SingleChunk { filtered_size, filter_mask } => {
            let (x, y) = (
                le(filtered_size as nat, sizes.length as nat),
                le(filter_mask as nat, 4),
            );
            if (flags / 2) % 2 == 1 {
                lemma_le_len(filtered_size as nat, sizes.length as nat);
                lemma_le_len(filter_mask as nat, 4);
                lemma_holds_both(b, p, seq![1u8], x + y);
                lemma_holds_both(b, p + 1, x, y);
                lemma_holds_uint(b, p + 1, filtered_size as nat, sizes.length);
                lemma_holds_u32(b, p + 1 + sizes.length, filter_mask as nat);
            } else {
                lemma_holds_both(b, p, seq![1u8], Seq::empty());
            }
            lemma_holds_one(b, p, 1);
        },
        ChunkIndex::Implicit => {
            lemma_holds_both(b, p, seq![2u8], Seq::empty());
            lemma_holds_one(b, p, 2);
        },
        ChunkIndex::FixedArray { page_bits } => {
            lemma_holds_both(b, p, seq![3u8], seq![page_bits]);
            lemma_holds_one(b, p, 3);
            lemma_holds_one(b, p + 1, page_bits);
        },
        ChunkIndex::ExtensibleArray {
            max_bits,
            index_elements,
            min_pointers,
            min_elements,
            page_bits,
        } => {
            let t3 = seq![min_elements] + seq![page_bits];
            let t2 = seq![min_pointers] + t3;
            let t1 = seq![index_elements] + t2;
            lemma_holds_both(b, p, seq![4u8], seq![max_bits] + t1);
            lemma_holds_one(b, p, 4);
            lemma_holds_both(b, p + 1, seq![max_bits], t1);
            lemma_holds_one(b, p + 1, max_bits);
            lemma_holds_both(b, p + 2, seq![index_elements], t2);
            lemma_holds_one(b, p + 2, index_elements);
            lemma_holds_both(b, p + 3, seq![min_pointers], t3);
            lemma_holds_one(b, p + 3, min_pointers);
            lemma_holds_both(b, p + 4, seq![min_elements], seq![page_bits]);
            lemma_holds_one(b, p + 4, min_elements);
            lemma_holds_one(b, p + 5, page_bits);
        },
        ChunkIndex::BtreeV2 { node_size, split_percent, merge_percent } => {
            let t = seq![split_percent] + seq![merge_percent];
            lemma_le_len(node_size as nat, 4);
            lemma_holds_both(b, p, seq![5u8], le(node_size as nat, 4) + t);
            lemma_holds_one(b, p, 5);
            lemma_holds_both(b, p + 1, le(node_size as nat, 4), t);
            lemma_holds_u32(b, p + 1, node_size as nat);
            lemma_holds_both(b, p + 5, seq![split_percent], seq![merge_percent]);
            lemma_holds_one(b, p + 5, split_percent);
            lemma_holds_one(b, p + 6, merge_percent);
        },
        ChunkIndex::BtreeV1 => {},
    }
}

/// Chunked storage, in version 4: flags, one more than the number of axes, how wide the
/// extents are, the extents of a chunk and the size of an element, the index, and where
/// it is.
#[verifier::spinoff_prover]
#[verifier::rlimit(80)]
pub proof fn a_version_four_chunked_layout_reads_as_it_was_written(
    b: Seq<u8>,
    flags: u8,
    width: u8,
    at: Option<u64>,
    dims: Seq<u32>,
    size: u32,
    index: ChunkIndex,
    rest: Seq<u8>,
    sizes: Sizes,
)
    requires
        addressable(at, sizes),
        dims.len() < 255,
        0 < width <= 8,
        all_small(dims, width as nat),
        size < pow256(width as nat),
        index_fits(index, flags, sizes),
        b == seq![4u8] + (seq![2u8] + (seq![flags] + (seq![(dims.len() + 1) as u8] + (seq![width]
            + (small_extents_written(dims, width as nat) + (le(size as nat, width as nat) + (
        index_written(index, flags, sizes) + (address(at, sizes) + rest)))))))),
    ensures
        layout_of(b, sizes) == std::result::Result::<LayoutView, ErrorView>::Ok(
            LayoutView::Chunked { address: at, chunk_dims: dims, element_size: size, index },
        ),
{
    let n = (dims.len() + 1) as u8;
    let w = width as nat;
    let t7 = address(at, sizes) + rest;
    let t6 = index_written(index, flags, sizes) + t7;
    let t5 = le(size as nat, w) + t6;
    let t4 = small_extents_written(dims, w) + t5;
    let t3 = seq![width] + t4;
    let t2 = seq![n] + t3;
    let t1 = seq![flags] + t2;
    assert(b.subrange(0, b.len() as int) =~= b);
    assert(holds(b, 0, b));
    lemma_le_len(size as nat, w);
    lemma_holds_both(b, 0, seq![4u8], seq![2u8] + t1);
    lemma_holds_one(b, 0, 4);
    lemma_holds_both(b, 1, seq![2u8], t1);
    lemma_holds_one(b, 1, 2);
    lemma_holds_both(b, 2, seq![flags], t2);
    lemma_holds_one(b, 2, flags);
    lemma_holds_both(b, 3, seq![n], t3);
    lemma_holds_one(b, 3, n);
    lemma_holds_both(b, 4, seq![width], t4);
    lemma_holds_one(b, 4, width);
    lemma_holds_both(b, 5, small_extents_written(dims, w), t5);
    lemma_narrow_extents(b, 5, dims, width, Seq::empty());
    assert(Seq::<u32>::empty() + dims =~= dims);
    let p: int = 5 + dims.len() * w as int;
    lemma_holds_both(b, p, le(size as nat, w), t6);
    lemma_holds_uint(b, p, size as nat, width);
    let q = p + w;
    lemma_holds_both(b, q, index_written(index, flags, sizes), t7);
    lemma_index(b, q, index, flags, sizes);
    let r = q + index_written(index, flags, sizes).len();
    lemma_holds_both(b, r, address(at, sizes), rest);
    lemma_holds_address(b, r, at, sizes);
}

// ── shared messages ────────────────────────────────────────────────────────

/// A message that stands elsewhere says where: versions 2 and 3 give the address behind
/// their kind, version 1 behind six bytes more.
pub proof fn a_shared_message_says_where_it_is(
    b: Seq<u8>,
    version: u8,
    kind: u8,
    reserved: Seq<u8>,
    at: u64,
    rest: Seq<u8>,
    sizes: Sizes,
)
    requires
        addressable(Some(at), sizes),
        1 <= version <= 3,
        reserved.len() == if version == 1 {
            6nat
        } else {
            0nat
        },
        b == seq![version] + (seq![kind] + (reserved + (address(Some(at), sizes) + rest))),
    ensures
        version == 1 || kind == 2 ==> shared_message(b, sizes) == std::result::Result::<
            SharedMessage,
            ErrorView,
        >::Ok(SharedMessage { version, location: SharedLocation::Committed(at) }),
        version > 1 && kind == 0 ==> (shared_message(b, sizes) matches Ok(m) && m.location
            is Unshared),
        version > 1 && kind == 1 ==> (shared_message(b, sizes) matches Ok(m) && m.location
            is MessageHeap),
        version > 1 && kind == 3 ==> (shared_message(b, sizes) matches Ok(m) && m.location
            is Here),
        version > 1 && kind > 3 ==> shared_message(b, sizes) is Err,
{
    let t = address(Some(at), sizes) + rest;
    assert(b.subrange(0, b.len() as int) =~= b);
    assert(holds(b, 0, b));
    lemma_holds_both(b, 0, seq![version], seq![kind] + (reserved + t));
    lemma_holds_one(b, 0, version);
    lemma_holds_both(b, 1, seq![kind], reserved + t);
    lemma_holds_one(b, 1, kind);
    lemma_holds_both(b, 2, reserved, t);
    let p = 2 + reserved.len() as int;
    lemma_holds_both(b, p, address(Some(at), sizes), rest);
    lemma_holds_address(b, p, Some(at), sizes);
    assert(crate::cursor::address_required_at(b, p, sizes, "shared message target"@) == Parse::<
        u64,
    >::Ok((at, p + sizes.offset)));
}

} // verus!
