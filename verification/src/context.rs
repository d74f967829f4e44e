//! What a parser of the file needs: the bytes, the base address that stored
//! addresses are relative to, and the widths of addresses and lengths.

use vstd::prelude::*;

use crate::cursor::Sizes;
use crate::error::{Error, Result};
#[allow(unused_imports)]
use crate::error::{seen, ErrorView};
use crate::source::ByteSource;
#[allow(unused_imports)]
use crate::source::{agrees, Image};
use crate::superblock::Superblock;

verus! {

/// A file being read.
pub struct Ctx<'a, S: ByteSource + ?Sized> {
    /// Where the bytes come from.
    pub source: &'a S,
    /// How stored addresses are spelled and resolved.
    pub superblock: &'a Superblock,
}

/// What a [`Ctx`] gives access to.
pub struct CtxView {
    pub image: Image,
    pub superblock: Superblock,
}

impl CtxView {
    /// The widths of addresses and lengths.
    pub open spec fn sizes(self) -> Sizes {
        self.superblock.sizes
    }

    /// `len` bytes at the stored address `address`.
    pub open spec fn fetch(self, address: u64, len: int) -> std::result::Result<
        Seq<u8>,
        ErrorView,
    > {
        if len > usize::MAX {
            Err(ErrorView::Malformed("a structure is longer than memory can hold"@))
        } else {
            self.image.fetch(self.superblock.resolved(address), len)
        }
    }

    /// As many of `len` bytes at the stored address `address` as there are.
    pub open spec fn fetch_upto(self, address: u64, len: int) -> std::result::Result<
        Seq<u8>,
        ErrorView,
    > {
        let at = self.superblock.resolved(address);
        let left = self.image.bytes.len() - at;
        self.image.fetch(
            at,
            if left < 0 {
                0
            } else if left < len {
                left
            } else {
                len
            },
        )
    }
}

impl<S: ByteSource + ?Sized> View for Ctx<'_, S> {
    type V = CtxView;

    open spec fn view(&self) -> CtxView {
        CtxView { image: self.source.image(), superblock: *self.superblock }
    }
}

impl<S: ByteSource + ?Sized> Clone for Ctx<'_, S> {
    fn clone(&self) -> (r: Self)
        ensures
            r == *self,
    {
        *self
    }
}

impl<S: ByteSource + ?Sized> Copy for Ctx<'_, S> {

}

impl<'a, S: ByteSource + ?Sized> Ctx<'a, S> {
    /// Read `source`, whose superblock is `superblock`.
    pub fn new(source: &'a S, superblock: &'a Superblock) -> (r: Self)
        ensures
            r.source == source,
            r.superblock == superblock,
    {
        Ctx { source, superblock }
    }

    /// Whether every read that is in range succeeds.
    pub open spec fn dependable(&self) -> bool {
        self.source.dependable()
    }

    /// The widths of addresses and lengths.
    pub fn sizes(&self) -> (r: Sizes)
        ensures
            r == self@.sizes(),
    {
        self.superblock.sizes
    }

    /// Read `len` bytes at a stored address.
    pub fn read(&self, address: u64, len: u64) -> (r: Result<Vec<u8>>)
        ensures
            agrees(
                seen(r),
                self@.fetch(address, len as int),
                self.dependable() || self@.fetch(address, len as int) is Err,
            ),
    {
        if len > usize::MAX as u64 {
            return Err(Error::malformed("a structure is longer than memory can hold"));
        }
        self.source.read_vec(self.superblock.resolve(address), len as usize)
    }

    /// Read `len` bytes at a stored address, where `len` was computed from sizes
    /// that the file claims.
    pub fn read_wide(&self, address: u64, len: u128) -> (r: Result<Vec<u8>>)
        ensures
            agrees(
                seen(r),
                self@.fetch(address, len as int),
                self.dependable() || self@.fetch(address, len as int) is Err,
            ),
    {
        if len > usize::MAX as u128 {
            return Err(Error::malformed("a structure is longer than memory can hold"));
        }
        self.read(address, len as u64)
    }

    /// Read up to `len` bytes at a stored address, fewer at the end of the file.
    pub fn read_upto(&self, address: u64, len: usize) -> (r: Result<Vec<u8>>)
        ensures
            agrees(
                seen(r),
                self@.fetch_upto(address, len as int),
                self.dependable() || self@.fetch_upto(address, len as int) is Err,
            ),
    {
        let at: u64 = self.superblock.resolve(address);
        let size: u64 = self.source.size();
        let left: u64 = if size > at { size - at } else { 0 };
        let n: usize = if left < len as u64 { left as usize } else { len };
        self.source.read_vec(at, n)
    }
}

} // verus!
