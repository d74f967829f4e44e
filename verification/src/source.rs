//! Byte sources for random access.
//!
//! This trait makes parallel reads possible. Every method takes `&self`. No
//! implementation holds a position. Many threads can read different byte ranges
//! of one file at the same time. There is no position to share, so there is no
//! lock.
//!
//! This trait is also the seam for remote storage. Nothing above this module
//! knows where the bytes come from.

use vstd::prelude::*;

use crate::error::{Error, Result};
#[allow(unused_imports)]
use crate::error::{seen, ErrorView};
#[allow(unused_imports)]
use crate::views::views;

verus! {

/// What a byte source holds, and the name that its range errors carry.
pub struct Image {
    pub bytes: Seq<u8>,
    pub label: Seq<char>,
}

impl Image {
    /// The error of a read of `len` bytes at `offset` that runs past the end.
    pub open spec fn past_end(self, offset: int, len: int) -> ErrorView {
        ErrorView::OutOfBounds {
            what: self.label,
            offset,
            len,
            available: if self.bytes.len() > offset {
                self.bytes.len() - offset
            } else {
                0
            },
        }
    }

    /// What a read of `len` bytes at `offset` gives: all of them, or an error.
    /// A short read is an error, never a silent truncation.
    pub open spec fn fetch(self, offset: int, len: int) -> std::result::Result<
        Seq<u8>,
        ErrorView,
    > {
        if offset + len > self.bytes.len() {
            Err(self.past_end(offset, len))
        } else {
            Ok(self.bytes.subrange(offset, offset + len))
        }
    }
}

/// `r` is what `want` says, or the storage failed on the way.
///
/// The storage cannot fail where this is `certain`: the source is dependable, or
/// nothing is read of it.
pub open spec fn agrees<T>(
    r: std::result::Result<T, ErrorView>,
    want: std::result::Result<T, ErrorView>,
    certain: bool,
) -> bool {
    r == want || (!certain && r is Err && r->Err_0.is_storage_failure())
}

/// What reading each of `ranges` in turn gives: the first failure, or all of them.
pub open spec fn fetch_all(
    image: Image,
    ranges: Seq<(u64, usize)>,
    done: Seq<Seq<u8>>,
) -> std::result::Result<Seq<Seq<u8>>, ErrorView>
    decreases ranges.len() - done.len(),
{
    if done.len() >= ranges.len() {
        Ok(done)
    } else {
        let (offset, len) = ranges[done.len() as int];
        match image.fetch(offset as int, len as int) {
            Ok(bytes) => fetch_all(image, ranges, done.push(bytes)),
            Err(e) => Err(e),
        }
    }
}

/// Whether reading each of `ranges` in turn reads anything: the first decides, for
/// one that is out of range ends it.
pub open spec fn reads_any(image: Image, ranges: Seq<(u64, usize)>) -> bool {
    ranges.len() > 0 && image.fetch(ranges[0].0 as int, ranges[0].1 as int) is Ok
}

/// A source of bytes addressed by absolute file offset.
///
/// Implementations must be cheap to share and safe to call concurrently.
pub trait ByteSource: Send + Sync {
    /// What the source holds.
    spec fn image(&self) -> Image;

    /// Whether every read that is in range succeeds. A source in memory is
    /// dependable; a file or a remote store may fail at any time. A read that is
    /// out of range is refused by its range alone, over any source.
    spec fn dependable(&self) -> bool;

    /// What range errors call this source.
    fn label(&self) -> (r: &'static str)
        ensures
            r@ == self.image().label,
    ;

    /// Total size of the source in bytes.
    fn size(&self) -> (r: u64)
        ensures
            r == self.image().bytes.len(),
    ;

    /// Fill `buf` with the bytes starting at `offset`.
    ///
    /// Returns [`Error::OutOfBounds`] when the range runs past the end. A short
    /// read is an error, never a silent truncation.
    fn read_exact_at(&self, offset: u64, buf: &mut [u8]) -> (r: Result<()>)
        ensures
            final(buf)@.len() == old(buf)@.len(),
            agrees(
                match r {
                    Ok(()) => Ok(final(buf)@),
                    Err(e) => Err(e@),
                },
                self.image().fetch(offset as int, old(buf)@.len() as int),
                self.dependable() || self.image().fetch(
                    offset as int,
                    old(buf)@.len() as int,
                ) is Err,
            ),
    ;

    /// Read `len` bytes at `offset` into a fresh buffer.
    ///
    /// The range is checked before the buffer is made, so a length that a
    /// damaged file claims never turns into an allocation of that size.
    fn read_vec(&self, offset: u64, len: usize) -> (r: Result<Vec<u8>>)
        ensures
            agrees(
                seen(r),
                self.image().fetch(offset as int, len as int),
                self.dependable() || self.image().fetch(offset as int, len as int) is Err,
            ),
    {
        let size: u64 = self.size();
        if offset > size || len as u64 > size - offset {
            return Err(
                Error::OutOfBounds {
                    what: self.label(),
                    offset,
                    len: len as u64,
                    available: if size > offset { size - offset } else { 0 },
                },
            );
        }
        let mut buf: Vec<u8> = vec![0u8; len];
        self.read_exact_at(offset, buf.as_mut_slice())?;
        Ok(buf)
    }

    /// Read several ranges at once.
    ///
    /// The default implementation issues them one by one. A remote
    /// implementation should override this to coalesce and pipeline requests,
    /// which is where most of the win is on object storage.
    fn read_ranges(&self, ranges: &[(u64, usize)]) -> (r: Result<Vec<Vec<u8>>>)
        ensures
            agrees(
                match r {
                    Ok(v) => Ok(views(v@)),
                    Err(e) => Err(e@),
                },
                fetch_all(self.image(), ranges@, Seq::empty()),
                self.dependable() || !reads_any(self.image(), ranges@),
            ),
    {
        broadcast use crate::views::group_views;
        let mut out: Vec<Vec<u8>> = Vec::new();
        while out.len() < ranges.len()
            invariant
                out@.len() <= ranges@.len(),
                out@.len() > 0 ==> reads_any(self.image(), ranges@),
                fetch_all(self.image(), ranges@, Seq::empty()) == fetch_all(
                    self.image(),
                    ranges@,
                    views(out@),
                ),
            decreases ranges@.len() - out@.len(),
        {
            broadcast use crate::views::group_views;
            let (offset, len): (u64, usize) = ranges[out.len()];
            let bytes = self.read_vec(offset, len)?;
            out.push(bytes);
        }
        Ok(out)
    }
}

/// A byte source backed by an in-memory buffer. Useful for tests and for files
/// small enough to hold whole.
#[derive(Debug)]
pub struct MemorySource {
    /// The bytes.
    pub data: Vec<u8>,
}

impl MemorySource {
    /// Wrap an owned buffer.
    pub fn new(data: Vec<u8>) -> (r: Self)
        ensures
            r.data == data,
    {
        Self { data }
    }
}

impl ByteSource for MemorySource {
    open spec fn image(&self) -> Image {
        Image { bytes: self.data@, label: "buffer"@ }
    }

    open spec fn dependable(&self) -> bool {
        true
    }

    fn label(&self) -> (r: &'static str) {
        "buffer"
    }

    fn size(&self) -> (r: u64) {
        self.data.len() as u64
    }

    fn read_exact_at(&self, offset: u64, buf: &mut [u8]) -> (r: Result<()>)
        ensures
            r is Err ==> final(buf)@ == old(buf)@,
    {
        let size: u64 = self.data.len() as u64;
        let len: usize = buf.len();
        if offset > size || len as u64 > size - offset {
            return Err(
                Error::OutOfBounds {
                    what: "buffer",
                    offset,
                    len: len as u64,
                    available: if size > offset { size - offset } else { 0 },
                },
            );
        }
        let start: usize = offset as usize;
        assert(start + len <= self.data.len());
        let mut i: usize = 0;
        while i < len
            invariant
                i <= len,
                len == buf@.len(),
                start + len <= self.data@.len() <= usize::MAX,
                forall|j: int| 0 <= j < i ==> buf@[j] == self.data@[start + j],
            decreases len - i,
        {
            buf[i] = self.data[start + i];
            i = i + 1;
        }
        assert(buf@ =~= self.data@.subrange(start as int, start + len));
        Ok(())
    }

}

/// A read is never short: it gives every byte asked for, each as the source
/// holds it, or it fails.
pub proof fn a_read_is_never_short(image: Image, offset: int, len: int)
    requires
        0 <= offset,
        0 <= len,
    ensures
        match image.fetch(offset, len) {
            Ok(b) => b.len() == len && forall|i: int|
                0 <= i < len ==> #[trigger] b[i] == image.bytes[offset + i],
            Err(e) => e is OutOfBounds && offset + len > image.bytes.len(),
        },
{
}

/// Reading several ranges at once gives what reading each one alone gives.
pub proof fn ranges_read_as_if_one_by_one(image: Image, ranges: Seq<(u64, usize)>, done: Seq<Seq<u8>>)
    requires
        done.len() <= ranges.len(),
        forall|i: int|
            0 <= i < done.len() ==> image.fetch(ranges[i].0 as int, ranges[i].1 as int) == Ok::<
                _,
                ErrorView,
            >(#[trigger] done[i]),
    ensures
        match fetch_all(image, ranges, done) {
            Ok(all) => all.len() == ranges.len() && forall|i: int|
                0 <= i < ranges.len() ==> image.fetch(ranges[i].0 as int, ranges[i].1 as int)
                    == Ok::<_, ErrorView>(#[trigger] all[i]),
            Err(e) => exists|i: int|
                0 <= i < ranges.len() && image.fetch(
                    (#[trigger] ranges[i]).0 as int,
                    ranges[i].1 as int,
                ) == Err::<Seq<u8>, _>(e),
        },
    decreases ranges.len() - done.len(),
{
    if done.len() < ranges.len() {
        let k = done.len() as int;
        match image.fetch(ranges[k].0 as int, ranges[k].1 as int) {
            Ok(bytes) => {
                ranges_read_as_if_one_by_one(image, ranges, done.push(bytes));
            },
            Err(_) => {},
        }
    }
}

} // verus!
