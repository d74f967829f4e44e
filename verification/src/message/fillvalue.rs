//! The fill value message: what unwritten storage reads as.
//!
//! This is easy to overlook and produces silently wrong numbers when it is.
//! A dataset that was created but never written has no bytes on disk at all.
//! Returning zeros for it looks entirely plausible, and is wrong: netCDF
//! defines its own fill values, such as `-2147483647` for a 32-bit integer, and
//! writes them into this message. The same applies to chunks that were never
//! allocated inside an otherwise-written dataset.

use vstd::prelude::*;
use vstd::slice::slice_to_vec;

use crate::cursor::Cursor;
#[allow(unused_imports)]
use crate::cursor::{skip_at, u32_in, u8_at};
use crate::error::{Error, Result};
#[allow(unused_imports)]
use crate::error::{seen, ErrorView};
use crate::text::numbered;
#[allow(unused_imports)]
use crate::text::decimal;
#[allow(unused_imports)]
use crate::views::option_view;

verus! {

/// A dataset's fill value.
#[derive(Debug, Clone, PartialEq, Eq)]
pub struct FillValue {
    /// The fill bytes, exactly one element wide, in the file's byte order.
    ///
    /// `None` means the file defines no fill value, in which case zero bytes
    /// are the defined behaviour.
    pub bytes: Option<Vec<u8>>,
}

impl View for FillValue {
    type V = Option<Seq<u8>>;

    open spec fn view(&self) -> Option<Seq<u8>> {
        option_view(self.bytes)
    }
}

impl Default for FillValue {
    fn default() -> (r: Self)
        ensures
            r@ is None,
    {
        FillValue { bytes: None }
    }
}

/// The byte that stands `i` bytes into a filled buffer: the fill value over and
/// over, or zero where there is none that is one element wide.
pub open spec fn fill_byte(value: Option<Seq<u8>>, element_size: nat, i: int) -> u8 {
    match value {
        Some(bytes) => if element_size > 0 && bytes.len() == element_size {
            bytes[i % element_size as int]
        } else {
            0
        },
        None => 0,
    }
}

/// A four-byte size at `p` and then the value. Anything too short is no value.
pub open spec fn sized_value_at(b: Seq<u8>, p: int) -> Option<Seq<u8>> {
    if b.len() - p < 4 {
        None
    } else {
        let size = u32_in(b, p) as int;
        if size == 0 || b.len() - (p + 4) < size {
            None
        } else {
            Some(b.subrange(p + 4, p + 4 + size))
        }
    }
}

/// The fill value that a message body spells.
pub open spec fn fill_value_of(b: Seq<u8>) -> std::result::Result<Option<Seq<u8>>, ErrorView> {
    match u8_at(b, 0) { Err((e, _)) => Err(e), Ok((version, p)) =>
        if version == 1 || version == 2 {
            match skip_at(b, p, 1) { Err((e, _)) => Err(e), Ok((_, p)) =>
            match skip_at(b, p, 1) { Err((e, _)) => Err(e), Ok((_, p)) =>
            match u8_at(b, p) { Err((e, _)) => Err(e), Ok((defined, p)) =>
                // Version 1 always carries the size and value. Version 2 only
                // carries them when the flag says so.
                Ok(if version == 1 || defined != 0 { sized_value_at(b, p) } else { None })
            }}}
        } else if version == 3 {
            match u8_at(b, p) { Err((e, _)) => Err(e), Ok((flags, p)) =>
                Ok(if flags & 0x20 != 0 { sized_value_at(b, p) } else { None })
            }
        } else {
            Err(ErrorView::Unsupported("fill value message version "@ + decimal(version as nat)))
        }
    }
}

impl FillValue {
    /// Fill `buf` with repetitions of the fill value.
    ///
    /// Falls back to zeroing when no fill value is defined, which is what the
    /// format specifies.
    pub fn fill(&self, buf: &mut [u8], element_size: usize)
        ensures
            final(buf)@ == Seq::new(
                old(buf)@.len(),
                |i: int| fill_byte(self@, element_size as nat, i),
            ),
    {
        let len: usize = buf.len();
        let mut i: usize = 0;
        match &self.bytes {
            // A fill value narrower than an element cannot be tiled meaningfully.
            Some(bytes) if element_size > 0 && bytes.len() == element_size => {
                let mut at: usize = 0;
                while i < len
                    invariant
                        i <= len,
                        len == buf@.len() == old(buf)@.len(),
                        self.bytes == Some(*bytes),
                        0 < element_size == bytes@.len(),
                        at == i % element_size,
                        forall|j: int| 0 <= j < i ==> buf@[j] == fill_byte(self@, element_size as nat, j),
                    decreases len - i,
                {
                    buf[i] = bytes[at];
                    proof {
                        lemma_next_remainder(i as int, element_size as int);
                    }
                    i = i + 1;
                    at = if at + 1 == element_size { 0 } else { at + 1 };
                }
            },
            _ => {
                while i < len
                    invariant
                        i <= len,
                        len == buf@.len() == old(buf)@.len(),
                        forall|j: int| #[trigger] fill_byte(self@, element_size as nat, j) == 0,
                        forall|j: int| 0 <= j < i ==> buf@[j] == 0,
                    decreases len - i,
                {
                    buf[i] = 0;
                    i = i + 1;
                }
            },
        }
        assert(buf@ =~= Seq::new(
            old(buf)@.len(),
            |i: int| fill_byte(self@, element_size as nat, i),
        ));
    }

    /// Whether the file defines a fill value.
    pub fn is_defined(&self) -> (r: bool)
        ensures
            r == (self@ is Some),
    {
        self.bytes.is_some()
    }

    /// Parse a fill value message body.
    pub fn parse(data: &[u8]) -> (r: Result<Self>)
        ensures
            seen(r) == fill_value_of(data@),
    {
        let mut cur = Cursor::new(data);
        let version: u8 = cur.u8()?;

        match version {
            1 | 2 => {
                cur.skip(1)?;  // space allocation time
                cur.skip(1)?;  // fill value write time
                let defined: u8 = cur.u8()?;
                // Version 1 always carries the size and value. Version 2 only
                // carries them when the flag says so.
                if version == 1 || defined != 0 {
                    return Ok(FillValue { bytes: read_sized_value(&mut cur)? });
                }
                Ok(FillValue { bytes: None })
            },
            3 => {
                let flags: u8 = cur.u8()?;
                // Bit 5 says a fill value follows; bit 4 says it is explicitly
                // undefined.
                if flags & 0x20 == 0 {
                    return Ok(FillValue { bytes: None });
                }
                Ok(FillValue { bytes: read_sized_value(&mut cur)? })
            },
            other => Err(Error::Unsupported(numbered("fill value message version ", other as u64))),
        }
    }

    /// Parse the original, pre-version fill value message (`FillValueOld`),
    /// which is only a size and a value.
    pub fn parse_old(data: &[u8]) -> (r: Result<Self>)
        ensures
            r matches Ok(v) && v@ == sized_value_at(data@, 0),
    {
        let mut cur = Cursor::new(data);
        Ok(FillValue { bytes: read_sized_value(&mut cur)? })
    }
}

fn read_sized_value(cur: &mut Cursor<'_>) -> (r: Result<Option<Vec<u8>>>)
    requires
        old(cur).pos <= old(cur).buf@.len(),
    ensures
        r matches Ok(v) && option_view(v) == sized_value_at(old(cur).buf@, old(cur).pos as int),
{
    if cur.remaining() < 4 {
        return Ok(None);
    }
    let size: usize = cur.u32()? as usize;
    if size == 0 || cur.remaining() < size {
        return Ok(None);
    }
    Ok(Some(slice_to_vec(cur.take(size)?)))
}

proof fn lemma_next_remainder(i: int, n: int)
    requires
        0 <= i,
        0 < n,
    ensures
        (i + 1) % n == if i % n + 1 == n {
            0
        } else {
            i % n + 1
        },
{
    vstd::arithmetic::div_mod::lemma_fundamental_div_mod(i, n);
    let q = i / n;
    let r = i % n;
    if r + 1 == n {
        assert(i + 1 == (q + 1) * n) by (nonlinear_arith)
            requires
                i == n * q + r,
                r + 1 == n,
        ;
        vstd::arithmetic::div_mod::lemma_fundamental_div_mod_converse(i + 1, n, q + 1, 0);
    } else {
        assert(i + 1 == q * n + r + 1) by (nonlinear_arith)
            requires
                i == n * q + r,
        ;
        vstd::arithmetic::div_mod::lemma_fundamental_div_mod_converse(i + 1, n, q, r + 1);
    }
}

} // verus!
