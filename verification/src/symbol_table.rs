//! Symbol table entries: how version 0 and 1 superblocks name the root group.

use vstd::prelude::*;

use crate::cursor::{Cursor, Sizes};
#[allow(unused_imports)]
use crate::cursor::{address_at, skip_at, u32_at, uint_at, Parse};
use crate::error::Result;
#[allow(unused_imports)]
use crate::error::seen;

verus! {

/// One entry of a group's symbol table.
#[derive(Debug, Clone, Copy, PartialEq, Eq, Structural)]
pub struct SymbolTableEntry {
    /// Offset of the link's name in the group's local heap.
    pub link_name_offset: u64,
    /// Address of the object that the link names.
    pub object_header_address: Option<u64>,
    /// What the scratch space of the entry caches.
    pub cache_type: u32,
}

impl View for SymbolTableEntry {
    type V = SymbolTableEntry;

    open spec fn view(&self) -> SymbolTableEntry {
        *self
    }
}

/// How many bytes an entry takes: two addresses, the cache type, four reserved
/// bytes and sixteen bytes of scratch space.
pub open spec fn entry_len(sizes: Sizes) -> int {
    2 * sizes.offset + 24
}

/// The entry that stands at `p`.
pub open spec fn entry_at(b: Seq<u8>, p: int, sizes: Sizes) -> Parse<SymbolTableEntry> {
    match uint_at(b, p, sizes.offset) { Err(e) => Err(e), Ok((link_name_offset, p)) =>
    match address_at(b, p, sizes) { Err(e) => Err(e), Ok((object_header_address, p)) =>
    match u32_at(b, p) { Err(e) => Err(e), Ok((cache_type, p)) =>
    match skip_at(b, p, 20) { Err(e) => Err(e), Ok((_, p)) =>
        Ok((SymbolTableEntry { link_name_offset, object_header_address, cache_type }, p))
    }}}}
}

impl SymbolTableEntry {
    /// Number of bytes one entry takes.
    pub fn encoded_len(sizes: Sizes) -> (r: usize)
        ensures
            r == entry_len(sizes),
    {
        2 * sizes.offset as usize + 24
    }

    /// Parse the entry at the cursor.
    pub fn parse(cur: &mut Cursor<'_>, sizes: Sizes) -> (r: Result<Self>)
        ensures
            final(cur).moved(
                *old(cur),
                seen(r),
                entry_at(old(cur).buf@, old(cur).pos as int, sizes),
            ),
    {
        let link_name_offset: u64 = cur.uint(sizes.offset)?;
        let object_header_address = cur.address(sizes)?;
        let cache_type: u32 = cur.u32()?;
        cur.skip(20)?;
        Ok(SymbolTableEntry { link_name_offset, object_header_address, cache_type })
    }
}

} // verus!
