//! The dataspace message: the shape of a dataset or attribute.

use vstd::prelude::*;

use crate::cursor::{Cursor, Sizes};
#[allow(unused_imports)]
use crate::cursor::{length_at, skip_at, u8_at, value_of, Parse};
use crate::error::{Error, Result};
#[allow(unused_imports)]
use crate::error::{seen, ErrorView};
use crate::shape::checked_product;
#[allow(unused_imports)]
use crate::shape::product;
use crate::text::numbered;
#[allow(unused_imports)]
use crate::text::decimal;
#[allow(unused_imports)]
use crate::views::option_view;

verus! {

/// What kind of dataspace this is.
#[derive(Debug, Clone, Copy, PartialEq, Eq, Structural)]
pub enum DataspaceKind {
    /// A single element, rank 0.
    Scalar,
    /// A rectangular array.
    Simple,
    /// No elements at all.
    Null,
}

/// The shape of a dataset or attribute.
#[derive(Debug, Clone, PartialEq, Eq)]
pub struct Dataspace {
    /// Whether this is scalar, simple or null.
    pub kind: DataspaceKind,
    /// Size along each dimension. Empty for scalar and null.
    pub dims: Vec<u64>,
    /// Maximum size along each dimension, when recorded.
    ///
    /// A value of `u64::MAX` marks an unlimited dimension.
    pub max_dims: Option<Vec<u64>>,
}

/// What a [`Dataspace`] says.
#[verifier::ext_equal]
pub struct DataspaceView {
    pub kind: DataspaceKind,
    pub dims: Seq<u64>,
    pub max_dims: Option<Seq<u64>>,
}

impl View for Dataspace {
    type V = DataspaceView;

    open spec fn view(&self) -> DataspaceView {
        DataspaceView {
            kind: self.kind,
            dims: self.dims@,
            max_dims: option_view(self.max_dims),
        }
    }
}

impl DataspaceView {
    /// Total number of elements.
    pub open spec fn count(self) -> nat {
        match self.kind {
            DataspaceKind::Null => 0,
            DataspaceKind::Scalar => 1,
            DataspaceKind::Simple => product(self.dims),
        }
    }

    /// Only a simple space has dimensions, and every dimension has a maximum where
    /// any is recorded.
    pub open spec fn consistent(self) -> bool {
        &&& self.kind != DataspaceKind::Simple ==> self.dims.len() == 0
        &&& self.max_dims matches Some(m) ==> m.len() == self.dims.len()
    }
}

/// `n` length fields, read behind those in `out`.
pub open spec fn dims_at(b: Seq<u8>, p: int, n: nat, sizes: Sizes, out: Seq<u64>) -> Parse<
    Seq<u64>,
>
    decreases n,
{
    if n == 0 {
        Ok((out, p))
    } else {
        match length_at(b, p, sizes) {
            Err(e) => Err(e),
            Ok((d, q)) => dims_at(b, q, (n - 1) as nat, sizes, out.push(d)),
        }
    }
}

/// The maximum extents, where a flag announces them.
pub open spec fn max_dims_at(b: Seq<u8>, p: int, n: nat, sizes: Sizes, flags: u8) -> Parse<
    Option<Seq<u64>>,
> {
    if flags & 0x01 != 0 {
        match dims_at(b, p, n, sizes, Seq::empty()) {
            Err(e) => Err(e),
            Ok((dims, q)) => Ok((Some(dims), q)),
        }
    } else {
        Ok((None, p))
    }
}

/// Permutation indices, where a flag announces them. They were never given a
/// meaning, so they are only skipped.
pub open spec fn permutation_at(b: Seq<u8>, p: int, n: nat, sizes: Sizes, flags: u8) -> Parse<()> {
    if flags & 0x02 != 0 {
        skip_at(b, p, n * sizes.length)
    } else {
        Ok(((), p))
    }
}

/// A version 1 dataspace, from behind its version byte on. It has no type field:
/// rank zero means scalar.
pub open spec fn dataspace_v1(b: Seq<u8>, p: int, sizes: Sizes) -> Parse<DataspaceView> {
    match u8_at(b, p) { Err(e) => Err(e), Ok((rank, p)) =>
    match u8_at(b, p) { Err(e) => Err(e), Ok((flags, p)) =>
    match skip_at(b, p, 1) { Err(e) => Err(e), Ok((_, p)) =>
    match skip_at(b, p, 4) { Err(e) => Err(e), Ok((_, p)) =>
    match dims_at(b, p, rank as nat, sizes, Seq::empty()) { Err(e) => Err(e), Ok((dims, p)) =>
    match max_dims_at(b, p, rank as nat, sizes, flags) { Err(e) => Err(e), Ok((max_dims, p)) =>
    match permutation_at(b, p, rank as nat, sizes, flags) { Err(e) => Err(e), Ok((_, p)) =>
        Ok((DataspaceView {
            kind: if rank == 0 { DataspaceKind::Scalar } else { DataspaceKind::Simple },
            dims,
            max_dims,
        }, p))
    }}}}}}}
}

/// The kind that a version 2 type field stands for.
pub open spec fn kind_of(code: u8) -> std::result::Result<DataspaceKind, ErrorView> {
    if code == 0 {
        Ok(DataspaceKind::Scalar)
    } else if code == 1 {
        Ok(DataspaceKind::Simple)
    } else if code == 2 {
        Ok(DataspaceKind::Null)
    } else {
        Err(ErrorView::Malformed("dataspace type "@ + decimal(code as nat)))
    }
}

/// A dataspace of a kind: only a simple one has dimensions, whatever extents the
/// message lists.
pub open spec fn dataspace_with(
    kind: DataspaceKind,
    dims: Seq<u64>,
    max_dims: Option<Seq<u64>>,
) -> DataspaceView {
    if kind is Simple {
        DataspaceView { kind, dims, max_dims }
    } else {
        DataspaceView {
            kind,
            dims: Seq::empty(),
            max_dims: match max_dims {
                Some(_) => Some(Seq::empty()),
                None => None,
            },
        }
    }
}

/// A version 2 dataspace, from behind its version byte on.
pub open spec fn dataspace_v2(b: Seq<u8>, p: int, sizes: Sizes) -> Parse<DataspaceView> {
    match u8_at(b, p) { Err(e) => Err(e), Ok((rank, p)) =>
    match u8_at(b, p) { Err(e) => Err(e), Ok((flags, p)) =>
    match u8_at(b, p) { Err(e) => Err(e), Ok((code, p)) =>
    match kind_of(code) { Err(e) => Err((e, p)), Ok(kind) =>
    match dims_at(b, p, rank as nat, sizes, Seq::empty()) { Err(e) => Err(e), Ok((dims, p)) =>
    match max_dims_at(b, p, rank as nat, sizes, flags) { Err(e) => Err(e), Ok((max_dims, p)) =>
        Ok((dataspace_with(kind, dims, max_dims), p))
    }}}}}}
}

/// The dataspace that a message body spells.
pub open spec fn dataspace_of(b: Seq<u8>, sizes: Sizes) -> std::result::Result<
    DataspaceView,
    ErrorView,
> {
    match u8_at(b, 0) { Err((e, _)) => Err(e), Ok((version, p)) =>
        if version == 1 {
            value_of(dataspace_v1(b, p, sizes))
        } else if version == 2 {
            value_of(dataspace_v2(b, p, sizes))
        } else {
            Err(ErrorView::Unsupported("dataspace message version "@ + decimal(version as nat)))
        }
    }
}

impl Dataspace {
    /// Number of dimensions.
    pub fn rank(&self) -> (r: usize)
        ensures
            r == self@.dims.len(),
    {
        self.dims.len()
    }

    /// Total number of elements.
    ///
    /// A scalar holds one element; a null dataspace holds none.
    pub fn element_count(&self) -> (r: u64)
        requires
            self@.count() <= u64::MAX,
        ensures
            r == self@.count(),
    {
        match self.kind {
            DataspaceKind::Null => 0,
            DataspaceKind::Scalar => 1,
            DataspaceKind::Simple => checked_product(self.dims.as_slice()).unwrap(),
        }
    }

    /// Total number of elements, when it fits in 64 bits.
    pub fn checked_element_count(&self) -> (r: Option<u64>)
        ensures
            r == if self@.count() <= u64::MAX {
                Some(self@.count() as u64)
            } else {
                None
            },
    {
        match self.kind {
            DataspaceKind::Null => Some(0),
            DataspaceKind::Scalar => Some(1),
            DataspaceKind::Simple => checked_product(self.dims.as_slice()),
        }
    }

    /// Whether any dimension is unlimited.
    pub fn has_unlimited(&self) -> (r: bool)
        ensures
            r == (self@.max_dims matches Some(m) && m.contains(u64::MAX)),
    {
        match &self.max_dims {
            None => false,
            Some(m) => {
                let mut i: usize = 0;
                while i < m.len()
                    invariant
                        i <= m@.len(),
                        self.max_dims == Some(*m),
                        forall|j: int| 0 <= j < i ==> m@[j] != u64::MAX,
                    decreases m@.len() - i,
                {
                    if m[i] == u64::MAX {
                        assert(m@.contains(u64::MAX));
                        return true;
                    }
                    i = i + 1;
                }
                false
            },
        }
    }

    /// Parse a dataspace message body.
    pub fn parse(data: &[u8], sizes: Sizes) -> (r: Result<Self>)
        ensures
            seen(r) == dataspace_of(data@, sizes),
            r matches Ok(d) ==> d@.consistent(),
    {
        let mut cur = Cursor::new(data);
        let version: u8 = cur.u8()?;
        match version {
            1 => Self::parse_v1(&mut cur, sizes),
            2 => Self::parse_v2(&mut cur, sizes),
            other => Err(Error::Unsupported(numbered("dataspace message version ", other as u64))),
        }
    }

    fn parse_v1(cur: &mut Cursor<'_>, sizes: Sizes) -> (r: Result<Self>)
        ensures
            seen(r) == value_of(dataspace_v1(old(cur).buf@, old(cur).pos as int, sizes)),
            r matches Ok(d) ==> d@.consistent(),
    {
        let rank: usize = cur.u8()? as usize;
        let flags: u8 = cur.u8()?;
        cur.skip(1)?;  // reserved
        cur.skip(4)?;  // reserved

        let dims = read_dims(cur, rank, sizes)?;
        let max_dims = if flags & 0x01 != 0 {
            Some(read_dims(cur, rank, sizes)?)
        } else {
            None
        };
        // Permutation indices were never implemented by the library. If the
        // flag is set the message still carries the field, but the values are
        // meaningless, so skipping is correct.
        if flags & 0x02 != 0 {
            assert(rank * sizes.length <= 255 * 255) by (nonlinear_arith)
                requires
                    rank <= 255,
                    sizes.length <= 255,
            ;
            cur.skip(rank * sizes.length as usize)?;
        }
        // Version 1 has no explicit type field. Rank zero means scalar.

        let kind = if rank == 0 {
            DataspaceKind::Scalar
        } else {
            DataspaceKind::Simple
        };
        Ok(Dataspace { kind, dims, max_dims })
    }

    fn parse_v2(cur: &mut Cursor<'_>, sizes: Sizes) -> (r: Result<Self>)
        ensures
            seen(r) == value_of(dataspace_v2(old(cur).buf@, old(cur).pos as int, sizes)),
            r matches Ok(d) ==> d@.consistent(),
    {
        let rank: usize = cur.u8()? as usize;
        let flags: u8 = cur.u8()?;
        let kind = match cur.u8()? {
            0 => DataspaceKind::Scalar,
            1 => DataspaceKind::Simple,
            2 => DataspaceKind::Null,
            other => {
                return Err(Error::Malformed(numbered("dataspace type ", other as u64)));
            },
        };
        let dims = read_dims(cur, rank, sizes)?;
        let max_dims = if flags & 0x01 != 0 {
            Some(read_dims(cur, rank, sizes)?)
        } else {
            None
        };
        match kind {
            DataspaceKind::Simple => Ok(Dataspace { kind, dims, max_dims }),
            // A scalar or null space has no dimensions, whatever rank it gives.
            _ => Ok(
                Dataspace {
                    kind,
                    dims: Vec::new(),
                    max_dims: match max_dims {
                        Some(_) => Some(Vec::new()),
                        None => None,
                    },
                },
            ),
        }
    }
}

/// As many length fields are read as were asked for.
proof fn lemma_dims(b: Seq<u8>, p: int, n: nat, sizes: Sizes, out: Seq<u64>)
    ensures
        dims_at(b, p, n, sizes, out) matches Ok((dims, _)) ==> dims.len() == out.len() + n,
    decreases n,
{
    if n > 0 {
        match length_at(b, p, sizes) {
            Ok((d, q)) => lemma_dims(b, q, (n - 1) as nat, sizes, out.push(d)),
            Err(_) => {},
        }
    }
}

fn read_dims(cur: &mut Cursor<'_>, rank: usize, sizes: Sizes) -> (r: Result<Vec<u64>>)
    ensures
        final(cur).moved(
            *old(cur),
            seen(r),
            dims_at(old(cur).buf@, old(cur).pos as int, rank as nat, sizes, Seq::empty()),
        ),
        r matches Ok(dims) ==> dims@.len() == rank,
{
    proof {
        lemma_dims(cur.buf@, cur.pos as int, rank as nat, sizes, Seq::empty());
    }
    let mut out: Vec<u64> = Vec::new();
    let mut left: usize = rank;
    let ghost want = dims_at(cur.buf@, cur.pos as int, rank as nat, sizes, Seq::empty());
    while left > 0
        invariant
            cur.buf == old(cur).buf,
            want == dims_at(
                old(cur).buf@,
                old(cur).pos as int,
                rank as nat,
                sizes,
                Seq::empty(),
            ),
            want == dims_at(cur.buf@, cur.pos as int, left as nat, sizes, out@),
        decreases left,
    {
        let d: u64 = cur.length(sizes)?;
        out.push(d);
        left = left - 1;
    }
    Ok(out)
}

} // verus!
