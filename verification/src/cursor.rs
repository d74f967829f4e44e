//! Little-endian cursor over an in-memory metadata block.
//!
//! HDF5 stores all of its own metadata little-endian, whatever byte order the
//! dataset values use. So every integer read here is little-endian.
//!
//! Offsets and lengths have a width that the superblock declares (almost always
//! 8 bytes). [`Sizes`] carries that width so the message parsers stay readable.
//!
//! What a read gives is stated as a function of the buffer and the position,
//! in a [`Parse`]: the value and the position after it, or the error and the
//! position at which the cursor stays.

use vstd::prelude::*;
use vstd::slice::slice_subrange;

use crate::bytes::{from_le, lossy_text};
#[allow(unused_imports)]
use crate::bytes::{le_value, lemma_pow256_values, pow256, utf8_lossy};
use crate::error::{Error, Result};
#[allow(unused_imports)]
use crate::error::{seen, ErrorView};
use crate::text::{add_text, joined, numbered};
#[allow(unused_imports)]
use crate::text::decimal;

verus! {

/// A value and the position after it, or an error and the position it leaves.
pub type Parse<T> = std::result::Result<(T, int), (ErrorView, int)>;

/// What a parse gives, whatever position it ends at.
pub open spec fn value_of<T>(p: Parse<T>) -> std::result::Result<T, ErrorView> {
    match p {
        Ok((v, _)) => Ok(v),
        Err((e, _)) => Err(e),
    }
}

/// Width in bytes of file offsets and of lengths, as declared by the superblock.
#[derive(Debug, Clone, Copy, PartialEq, Eq, Structural)]
pub struct Sizes {
    /// Width of a file address.
    pub offset: u8,
    /// Width of a length.
    pub length: u8,
}

impl View for Sizes {
    type V = Sizes;

    open spec fn view(&self) -> Sizes {
        *self
    }
}

/// The all-bits-set sentinel for an integer of `width` bytes.
pub open spec fn all_ones(width: u8) -> int {
    pow256(if width >= 8 { 8 } else { width as nat }) - 1
}

fn undefined_for_width(width: u8) -> (r: u64)
    ensures
        r == all_ones(width),
{
    proof {
        lemma_pow256_values();
    }
    match width {
        0 => 0,
        1 => 0xff,
        2 => 0xffff,
        3 => 0xff_ffff,
        4 => 0xffff_ffff,
        5 => 0xff_ffff_ffff,
        6 => 0xffff_ffff_ffff,
        7 => 0xff_ffff_ffff_ffff,
        _ => u64::MAX,
    }
}

impl Sizes {
    /// The near-universal 64-bit configuration.
    pub fn eight() -> (r: Sizes)
        ensures
            r == (Sizes { offset: 8, length: 8 }),
    {
        Sizes { offset: 8, length: 8 }
    }

    /// Whether `value` is the "undefined address" for this offset width, which
    /// HDF5 encodes as all bits set.
    pub fn is_undefined_address(&self, value: u64) -> (r: bool)
        ensures
            r == (value == all_ones(self.offset)),
    {
        undefined_for_width(self.offset) == value
    }
}

/// A read cursor over a metadata buffer.
#[derive(Debug, Clone)]
pub struct Cursor<'a> {
    /// The whole buffer.
    pub buf: &'a [u8],
    /// Current byte position. It may lie past the end, where nothing can be read.
    pub pos: usize,
}

/// The error of a read of `len` bytes at `offset` in a buffer of `available` bytes.
pub open spec fn out_of_bounds(offset: int, len: int, available: int) -> ErrorView {
    ErrorView::OutOfBounds { what: "metadata"@, offset, len, available }
}

/// The next `n` bytes.
pub open spec fn take_at(b: Seq<u8>, p: int, n: int) -> Parse<Seq<u8>> {
    if p + n > b.len() {
        Err((out_of_bounds(p, n, b.len() as int), p))
    } else {
        Ok((b.subrange(p, p + n), p + n))
    }
}

/// Skipping `n` bytes.
pub open spec fn skip_at(b: Seq<u8>, p: int, n: int) -> Parse<()> {
    match take_at(b, p, n) {
        Ok((_, q)) => Ok(((), q)),
        Err(e) => Err(e),
    }
}

/// Skipping to the next multiple of `align`, counted from `start`.
pub open spec fn align_at(b: Seq<u8>, start: int, p: int, align: int) -> Parse<()> {
    if (p - start) % align == 0 {
        Ok(((), p))
    } else {
        skip_at(b, p, align - (p - start) % align)
    }
}

/// One byte.
pub open spec fn u8_at(b: Seq<u8>, p: int) -> Parse<u8> {
    match take_at(b, p, 1) {
        Ok((s, q)) => Ok((s[0], q)),
        Err(e) => Err(e),
    }
}

/// Two bytes, as the number they spell.
pub open spec fn u16_at(b: Seq<u8>, p: int) -> Parse<u16> {
    match take_at(b, p, 2) {
        Ok((s, q)) => Ok((le_value(s) as u16, q)),
        Err(e) => Err(e),
    }
}

/// Four bytes, as the number they spell.
pub open spec fn u32_at(b: Seq<u8>, p: int) -> Parse<u32> {
    match take_at(b, p, 4) {
        Ok((s, q)) => Ok((le_value(s) as u32, q)),
        Err(e) => Err(e),
    }
}

/// The two bytes of `b` at `p`, as the number they spell.
pub open spec fn u16_in(b: Seq<u8>, p: int) -> u16 {
    le_value(b.subrange(p, p + 2)) as u16
}

/// The four bytes of `b` at `p`, as the number they spell.
pub open spec fn u32_in(b: Seq<u8>, p: int) -> u32 {
    le_value(b.subrange(p, p + 4)) as u32
}

/// Eight bytes, as the number they spell.
pub open spec fn u64_at(b: Seq<u8>, p: int) -> Parse<u64> {
    match take_at(b, p, 8) {
        Ok((s, q)) => Ok((le_value(s) as u64, q)),
        Err(e) => Err(e),
    }
}

/// `width` bytes, up to eight, as the number they spell.
pub open spec fn uint_at(b: Seq<u8>, p: int, width: u8) -> Parse<u64> {
    if width == 0 {
        Ok((0, p))
    } else if width > 8 {
        Err(
            (
                ErrorView::Unsupported(
                    "integer width "@ + decimal(width as nat) + " bytes exceeds 8"@,
                ),
                p,
            ),
        )
    } else {
        match take_at(b, p, width as int) {
            Ok((s, q)) => Ok((le_value(s) as u64, q)),
            Err(e) => Err(e),
        }
    }
}

/// A file address: absent when all its bits are set.
pub open spec fn address_at(b: Seq<u8>, p: int, sizes: Sizes) -> Parse<Option<u64>> {
    match uint_at(b, p, sizes.offset) {
        Ok((raw, q)) => Ok((
            if raw == all_ones(sizes.offset) {
                None
            } else {
                Some(raw)
            },
            q,
        )),
        Err(e) => Err(e),
    }
}

/// A file address that must be there.
pub open spec fn address_required_at(
    b: Seq<u8>,
    p: int,
    sizes: Sizes,
    what: Seq<char>,
) -> Parse<u64> {
    match address_at(b, p, sizes) {
        Ok((Some(a), q)) => Ok((a, q)),
        Ok((None, q)) => Err((ErrorView::Malformed(what + " has an undefined address"@), q)),
        Err(e) => Err(e),
    }
}

/// A length field.
pub open spec fn length_at(b: Seq<u8>, p: int, sizes: Sizes) -> Parse<u64> {
    uint_at(b, p, sizes.length)
}

/// The first index from `p` on that holds a zero byte, or the end of `b`.
pub open spec fn first_zero(b: Seq<u8>, p: int) -> int
    decreases b.len() - p,
{
    if p >= b.len() {
        b.len() as int
    } else if b[p] == 0 {
        p
    } else {
        first_zero(b, p + 1)
    }
}

/// A NUL-terminated string; the position after it is past the terminator.
pub open spec fn cstring_at(b: Seq<u8>, p: int) -> Parse<Seq<char>> {
    let end = first_zero(b, p);
    if end >= b.len() {
        Err((ErrorView::Malformed("unterminated string in metadata"@), p))
    } else {
        Ok((utf8_lossy(b.subrange(p, end)), end + 1))
    }
}

/// A NUL-terminated string padded to a multiple of `align` bytes.
pub open spec fn cstring_padded_at(b: Seq<u8>, p: int, align: int) -> Parse<Seq<char>> {
    match cstring_at(b, p) {
        Ok((s, q)) => match align_at(b, p, q, align) {
            Ok((_, q2)) => Ok((s, q2)),
            Err(e) => Err(e),
        },
        Err(e) => Err(e),
    }
}

/// `n` bytes, read as text up to the first NUL.
pub open spec fn fixed_string_at(b: Seq<u8>, p: int, n: int) -> Parse<Seq<char>> {
    match take_at(b, p, n) {
        Ok((s, q)) => Ok((utf8_lossy(s.take(first_zero(s, 0))), q)),
        Err(e) => Err(e),
    }
}

pub(crate) proof fn lemma_first_zero(b: Seq<u8>, p: int)
    requires
        0 <= p,
    ensures
        p <= first_zero(b, p) <= b.len() || (p > b.len() && first_zero(b, p) == b.len()),
    decreases b.len() - p,
{
    if p < b.len() && b[p] != 0 {
        lemma_first_zero(b, p + 1);
    }
}

impl<'a> Cursor<'a> {
    /// The cursor moved from `before` to `self` and returned `r`, as `want` says.
    pub open spec fn moved<T>(
        self,
        before: Cursor<'a>,
        r: std::result::Result<T, ErrorView>,
        want: Parse<T>,
    ) -> bool {
        self.buf == before.buf && match want {
            Ok((v, p)) => r == std::result::Result::<T, ErrorView>::Ok(v) && self.pos == p,
            Err((e, p)) => r == std::result::Result::<T, ErrorView>::Err(e) && self.pos == p,
        }
    }

    /// Start a cursor at the beginning of `buf`.
    pub fn new(buf: &'a [u8]) -> (r: Self)
        ensures
            r.buf == buf,
            r.pos == 0,
    {
        Self { buf, pos: 0 }
    }

    /// Start a cursor at byte `pos` of `buf`.
    pub fn at(buf: &'a [u8], pos: usize) -> (r: Self)
        ensures
            r.buf == buf,
            r.pos == pos,
    {
        Self { buf, pos }
    }

    /// Current byte position.
    pub fn pos(&self) -> (r: usize)
        ensures
            r == self.pos,
    {
        self.pos
    }

    /// Move to an absolute byte position.
    pub fn seek(&mut self, pos: usize) -> (r: Result<()>)
        ensures
            final(self).moved(
                *old(self),
                seen(r),
                if pos > old(self).buf@.len() {
                    Err(
                        (
                            out_of_bounds(pos as int, 0, old(self).buf@.len() as int),
                            old(self).pos as int,
                        ),
                    )
                } else {
                    Ok(((), pos as int))
                },
            ),
    {
        if pos > self.buf.len() {
            return Err(self.oob(pos as u64, 0));
        }
        self.pos = pos;
        Ok(())
    }

    /// Bytes left after the cursor.
    pub fn remaining(&self) -> (r: usize)
        ensures
            r == if self.pos <= self.buf@.len() {
                self.buf@.len() - self.pos
            } else {
                0
            },
    {
        if self.pos <= self.buf.len() {
            self.buf.len() - self.pos
        } else {
            0
        }
    }

    /// Whether the cursor sits at or past the end.
    pub fn is_empty(&self) -> (r: bool)
        ensures
            r == (self.pos >= self.buf@.len()),
    {
        self.remaining() == 0
    }

    /// The whole underlying buffer.
    pub fn buffer(&self) -> (r: &'a [u8])
        ensures
            r == self.buf,
    {
        self.buf
    }

    fn oob(&self, offset: u64, len: u64) -> (r: Error)
        ensures
            r@ == out_of_bounds(offset as int, len as int, self.buf@.len() as int),
    {
        Error::OutOfBounds { what: "metadata", offset, len, available: self.buf.len() as u64 }
    }

    /// Take the next `n` bytes.
    pub fn take(&mut self, n: usize) -> (r: Result<&'a [u8]>)
        ensures
            final(self).moved(
                *old(self),
                seen(r),
                take_at(old(self).buf@, old(self).pos as int, n as int),
            ),
    {
        let out = self.peek(n)?;
        assert(self.pos + n <= self.buf.len());
        self.pos = self.pos + n;
        Ok(out)
    }

    /// Look at the next `n` bytes without advancing.
    pub fn peek(&self, n: usize) -> (r: Result<&'a [u8]>)
        ensures
            match take_at(self.buf@, self.pos as int, n as int) {
                Ok((s, _)) => r matches Ok(out) && out@ == s,
                Err((e, _)) => r matches Err(x) && x@ == e,
            },
    {
        if self.pos > self.buf.len() || n > self.buf.len() - self.pos {
            return Err(self.oob(self.pos as u64, n as u64));
        }
        Ok(slice_subrange(self.buf, self.pos, self.pos + n))
    }

    /// Skip `n` bytes.
    pub fn skip(&mut self, n: usize) -> (r: Result<()>)
        ensures
            final(self).moved(
                *old(self),
                seen(r),
                skip_at(old(self).buf@, old(self).pos as int, n as int),
            ),
    {
        let _ = self.take(n)?;
        Ok(())
    }

    /// Take the next `n` bytes, where `n` was read from the file.
    pub fn take_long(&mut self, n: u64) -> (r: Result<&'a [u8]>)
        ensures
            final(self).moved(
                *old(self),
                seen(r),
                take_at(old(self).buf@, old(self).pos as int, n as int),
            ),
    {
        if n > self.remaining() as u64 || self.pos > self.buf.len() {
            return Err(self.oob(self.pos as u64, n));
        }
        self.take(n as usize)
    }

    /// Advance until the position is a multiple of `align`.
    ///
    /// Version 1 object headers pad every message to an 8-byte boundary.
    pub fn align_to(&mut self, align: usize) -> (r: Result<()>)
        requires
            align > 0,
        ensures
            final(self).moved(
                *old(self),
                seen(r),
                align_at(old(self).buf@, 0, old(self).pos as int, align as int),
            ),
    {
        let rem: usize = self.pos % align;
        if rem != 0 {
            self.skip(align - rem)?;
        }
        Ok(())
    }

    /// Read one byte.
    pub fn u8(&mut self) -> (r: Result<u8>)
        ensures
            final(self).moved(*old(self), seen(r), u8_at(old(self).buf@, old(self).pos as int)),
    {
        Ok(self.take(1)?[0])
    }

    /// Read a little-endian `u16`.
    pub fn u16(&mut self) -> (r: Result<u16>)
        ensures
            final(self).moved(*old(self), seen(r), u16_at(old(self).buf@, old(self).pos as int)),
    {
        let b = self.take(2)?;
        proof {
            lemma_pow256_values();
        }
        Ok(from_le(b) as u16)
    }

    /// Read a little-endian `u32`.
    pub fn u32(&mut self) -> (r: Result<u32>)
        ensures
            final(self).moved(*old(self), seen(r), u32_at(old(self).buf@, old(self).pos as int)),
    {
        let b = self.take(4)?;
        proof {
            lemma_pow256_values();
        }
        Ok(from_le(b) as u32)
    }

    /// Read a little-endian `u64`.
    pub fn u64(&mut self) -> (r: Result<u64>)
        ensures
            final(self).moved(*old(self), seen(r), u64_at(old(self).buf@, old(self).pos as int)),
    {
        let b = self.take(8)?;
        Ok(from_le(b))
    }

    /// Read a little-endian unsigned integer `width` bytes wide, up to 8.
    pub fn uint(&mut self, width: u8) -> (r: Result<u64>)
        ensures
            final(self).moved(
                *old(self),
                seen(r),
                uint_at(old(self).buf@, old(self).pos as int, width),
            ),
    {
        if width == 0 {
            return Ok(0);
        }
        if width > 8 {
            return Err(
                Error::Unsupported(
                    add_text(numbered("integer width ", width as u64), " bytes exceeds 8"),
                ),
            );
        }
        let b = self.take(width as usize)?;
        Ok(from_le(b))
    }

    /// Read a file address. Returns `None` for the undefined-address sentinel.
    pub fn address(&mut self, sizes: Sizes) -> (r: Result<Option<u64>>)
        ensures
            final(self).moved(
                *old(self),
                seen(r),
                address_at(old(self).buf@, old(self).pos as int, sizes),
            ),
    {
        let raw: u64 = self.uint(sizes.offset)?;
        Ok(
            if sizes.is_undefined_address(raw) {
                None
            } else {
                Some(raw)
            },
        )
    }

    /// Read a file address that must be defined.
    pub fn address_required(&mut self, sizes: Sizes, what: &str) -> (r: Result<u64>)
        ensures
            final(self).moved(
                *old(self),
                seen(r),
                address_required_at(old(self).buf@, old(self).pos as int, sizes, what@),
            ),
    {
        match self.address(sizes)? {
            Some(a) => Ok(a),
            None => {
                Err(Error::Malformed(joined(what, " has an undefined address")))
            },
        }
    }

    /// Read a length field.
    pub fn length(&mut self, sizes: Sizes) -> (r: Result<u64>)
        ensures
            final(self).moved(
                *old(self),
                seen(r),
                length_at(old(self).buf@, old(self).pos as int, sizes),
            ),
    {
        self.uint(sizes.length)
    }

    /// Read a NUL-terminated string and advance past the terminator.
    pub fn cstring(&mut self) -> (r: Result<String>)
        ensures
            final(self).moved(
                *old(self),
                seen(r),
                cstring_at(old(self).buf@, old(self).pos as int),
            ),
            r is Ok ==> old(self).pos < final(self).pos <= old(self).buf@.len(),
    {
        let start: usize = self.pos;
        let end: usize = position_of_zero(self.buf, start);
        if end >= self.buf.len() {
            return Err(Error::malformed("unterminated string in metadata"));
        }
        proof {
            lemma_first_zero(self.buf@, start as int);
        }
        let s = lossy_text(slice_subrange(self.buf, start, end));
        self.pos = end + 1;
        Ok(s)
    }

    /// Read a NUL-terminated string, then pad the total consumed length up to a
    /// multiple of `align`. Version 1 link names use 8-byte padding.
    pub fn cstring_padded(&mut self, align: usize) -> (r: Result<String>)
        requires
            align > 0,
        ensures
            final(self).moved(
                *old(self),
                seen(r),
                cstring_padded_at(old(self).buf@, old(self).pos as int, align as int),
            ),
            r is Ok ==> old(self).pos < final(self).pos <= old(self).buf@.len(),
    {
        let start: usize = self.pos;
        let s = self.cstring()?;
        proof {
            lemma_first_zero(self.buf@, start as int);
        }
        let rem: usize = (self.pos - start) % align;
        if rem != 0 {
            self.skip(align - rem)?;
        }
        Ok(s)
    }

    /// Read exactly `n` bytes and decode them as a string, stopping at the
    /// first NUL. HDF5 pads fixed-width name fields this way.
    pub fn fixed_string(&mut self, n: usize) -> (r: Result<String>)
        ensures
            final(self).moved(
                *old(self),
                seen(r),
                fixed_string_at(old(self).buf@, old(self).pos as int, n as int),
            ),
    {
        let raw = self.take(n)?;
        let end: usize = position_of_zero(raw, 0);
        proof {
            lemma_first_zero(raw@, 0);
        }
        Ok(lossy_text(slice_subrange(raw, 0, end)))
    }
}

/// The first index from `start` on that holds a zero byte, or the end of `b`.
pub fn position_of_zero(b: &[u8], start: usize) -> (r: usize)
    ensures
        r == first_zero(b@, start as int),
{
    let mut i: usize = start;
    while i < b.len()
        invariant
            first_zero(b@, start as int) == first_zero(b@, i as int),
        decreases b@.len() - i,
    {
        if b[i] == 0 {
            return i;
        }
        i = i + 1;
    }
    b.len()
}

} // verus!
