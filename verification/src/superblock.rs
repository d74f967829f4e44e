//! The HDF5 superblock.
//!
//! Versions 0 and 1 describe the root group with a symbol table entry and carry
//! the B-tree K values. Versions 2 and 3 drop all of that and simply name the
//! root group's object header address, then checksum themselves.
//!
//! Both shapes appear in ordinary netcdf-c output, so both are required.

use vstd::prelude::*;
use vstd::slice::slice_subrange;

use crate::bytes::same_bytes;
use crate::checksum;
#[allow(unused_imports)]
use crate::checksum::metadata_checksum;
use crate::container::{probe_user_blocks, HDF5_SIGNATURE};
#[allow(unused_imports)]
use crate::container::signature_offset;
use crate::cursor::{Cursor, Sizes};
#[allow(unused_imports)]
use crate::cursor::{
    address_at, address_required_at, skip_at, take_at, u16_at, u32_at, u32_in, u8_at, uint_at, value_of, Parse,
};
use crate::error::{Error, Result};
#[allow(unused_imports)]
use crate::error::{seen, ErrorView};
use crate::source::ByteSource;
#[allow(unused_imports)]
use crate::source::{agrees, Image};
use crate::symbol_table::SymbolTableEntry;
#[allow(unused_imports)]
use crate::symbol_table::{entry_at, entry_len};
use crate::text::{add_number, add_text, joined, numbered};
#[allow(unused_imports)]
use crate::text::decimal;

verus! {

/// Default number of entries in an indexed-storage B-tree node. Versions 0 and
/// 2+ do not store the value; the library's own default is 32.
pub const DEFAULT_ISTORE_K: u16 = 32;

/// Length of the longest superblock: version 1 with addresses of eight bytes. Its
/// fixed fields take 24 bytes, the rank of chunk B-tree nodes four, four addresses
/// 32 and the symbol table entry of the root group 40.
pub const MAX_SUPERBLOCK_LEN: usize = 100;

/// How the superblock names the root group.
#[derive(Debug, Clone)]
pub enum RootGroup {
    /// Versions 0 and 1: a full symbol table entry.
    SymbolTable(Box<SymbolTableEntry>),
    /// Versions 2 and 3: the object header address, directly.
    ObjectHeader(u64),
}

/// A parsed superblock.
#[derive(Debug, Clone)]
pub struct Superblock {
    /// Superblock version, 0 through 3.
    pub version: u8,
    /// Width of addresses and lengths in this file.
    pub sizes: Sizes,
    /// Absolute file offset where the superblock signature was found.
    ///
    /// A user block may precede it, in which case this is not zero.
    pub superblock_offset: u64,
    /// Base address that every stored address is relative to.
    pub base_address: u64,
    /// Address recorded as the end of the HDF5 data.
    pub end_of_file_address: u64,
    /// Address of the superblock extension object header, when present.
    pub extension_address: Option<u64>,
    /// How the root group is named.
    pub root: RootGroup,
    /// Rank of group B-tree internal nodes. Versions 0 and 1 only.
    pub group_internal_node_k: u16,
    /// Rank of group B-tree leaf nodes. Versions 0 and 1 only.
    pub group_leaf_node_k: u16,
    /// Rank of chunk B-tree internal nodes.
    ///
    /// Only version 1 records this. Every other version uses
    /// [`DEFAULT_ISTORE_K`], which is what the library writes.
    pub indexed_storage_internal_node_k: u16,
}

impl View for Superblock {
    type V = Superblock;

    open spec fn view(&self) -> Superblock {
        *self
    }
}

/// A width in bytes that addresses or lengths can have.
pub open spec fn width_is_plausible(v: u8) -> bool {
    v == 1 || v == 2 || v == 4 || v == 8
}

/// The error for a width that is none of these.
pub open spec fn implausible_width(what: Seq<char>, v: u8) -> ErrorView {
    ErrorView::Unsupported(
        "size of "@ + what + "s is "@ + decimal(v as nat)
            + " bytes; only 1, 2, 4 and 8 are supported"@,
    )
}

/// The widths, when both are plausible; the offset's is looked at first.
pub open spec fn sizes_of(offset: u8, length: u8) -> std::result::Result<Sizes, ErrorView> {
    if !width_is_plausible(offset) {
        Err(implausible_width("offset"@, offset))
    } else if !width_is_plausible(length) {
        Err(implausible_width("length"@, length))
    } else {
        Ok(Sizes { offset, length })
    }
}

/// The rank of chunk B-tree nodes, which version 1 alone stores.
pub open spec fn istore_k_at(b: Seq<u8>, p: int, version: u8) -> Parse<u16> {
    if version == 1 {
        match u16_at(b, p) { Err(e) => Err(e), Ok((k, p)) =>
        match skip_at(b, p, 2) { Err(e) => Err(e), Ok((_, p)) => Ok((k, p)) }}
    } else {
        Ok((DEFAULT_ISTORE_K, p))
    }
}

/// A version 0 or 1 superblock, from behind its version byte on.
pub open spec fn superblock_v0_v1(b: Seq<u8>, p: int, version: u8, offset: u64) -> Parse<
    Superblock,
> {
    match u8_at(b, p) { Err(e) => Err(e), Ok((_, p)) =>
    match u8_at(b, p) { Err(e) => Err(e), Ok((_, p)) =>
    match skip_at(b, p, 1) { Err(e) => Err(e), Ok((_, p)) =>
    match u8_at(b, p) { Err(e) => Err(e), Ok((_, p)) =>
    match u8_at(b, p) { Err(e) => Err(e), Ok((offset_size, p)) =>
    match u8_at(b, p) { Err(e) => Err(e), Ok((length_size, p)) =>
    match skip_at(b, p, 1) { Err(e) => Err(e), Ok((_, p)) =>
    match sizes_of(offset_size, length_size) { Err(e) => Err((e, p)), Ok(sizes) =>
    match u16_at(b, p) { Err(e) => Err(e), Ok((group_leaf_node_k, p)) =>
    match u16_at(b, p) { Err(e) => Err(e), Ok((group_internal_node_k, p)) =>
    match u32_at(b, p) { Err(e) => Err(e), Ok((_, p)) =>
    match istore_k_at(b, p, version) { Err(e) => Err(e), Ok((indexed_storage_internal_node_k, p)) =>
    match uint_at(b, p, sizes.offset) { Err(e) => Err(e), Ok((base_address, p)) =>
    match address_at(b, p, sizes) { Err(e) => Err(e), Ok((_, p)) =>
    match uint_at(b, p, sizes.offset) { Err(e) => Err(e), Ok((end_of_file_address, p)) =>
    match address_at(b, p, sizes) { Err(e) => Err(e), Ok((_, p)) =>
        if b.len() - p < entry_len(sizes) {
            Err((ErrorView::Malformed(
                "superblock is truncated before the root group symbol table entry"@), p))
        } else {
            match entry_at(b, p, sizes) { Err(e) => Err(e), Ok((entry, p)) =>
                Ok((Superblock {
                    version,
                    sizes,
                    superblock_offset: offset,
                    base_address,
                    end_of_file_address,
                    extension_address: None,
                    root: RootGroup::SymbolTable(Box::new(entry)),
                    group_internal_node_k,
                    group_leaf_node_k,
                    indexed_storage_internal_node_k,
                }, p))
            }
        }
    }}}}}}}}}}}}}}}}
}

/// A version 2 or 3 superblock, from behind its version byte on.
pub open spec fn superblock_v2_v3(b: Seq<u8>, p: int, version: u8, offset: u64) -> Parse<
    Superblock,
> {
    match u8_at(b, p) { Err(e) => Err(e), Ok((offset_size, p)) =>
    match u8_at(b, p) { Err(e) => Err(e), Ok((length_size, p)) =>
    match sizes_of(offset_size, length_size) { Err(e) => Err((e, p)), Ok(sizes) =>
    match u8_at(b, p) { Err(e) => Err(e), Ok((_, p)) =>
    match uint_at(b, p, sizes.offset) { Err(e) => Err(e), Ok((base_address, p)) =>
    match address_at(b, p, sizes) { Err(e) => Err(e), Ok((extension_address, p)) =>
    match uint_at(b, p, sizes.offset) { Err(e) => Err(e), Ok((end_of_file_address, p)) =>
    match address_required_at(b, p, sizes, "root group object header"@) { Err(e) => Err(e), Ok((root, p)) =>
    match u32_at(b, p) { Err(e) => Err(e), Ok((stored, q)) =>
        if stored != metadata_checksum(b.take(p)) {
            Err((ErrorView::ChecksumMismatch {
                what: "superblock"@,
                stored,
                computed: metadata_checksum(b.take(p)),
            }, q))
        } else {
            Ok((Superblock {
                version,
                sizes,
                superblock_offset: offset,
                base_address,
                end_of_file_address,
                extension_address,
                root: RootGroup::ObjectHeader(root),
                group_internal_node_k: 0,
                group_leaf_node_k: 0,
                indexed_storage_internal_node_k: DEFAULT_ISTORE_K,
            }, q))
        }
    }}}}}}}}}
}

/// The superblock that the bytes `b`, which start with the signature, spell.
pub open spec fn superblock_of(b: Seq<u8>, offset: u64) -> Parse<Superblock> {
    match skip_at(b, 0, 8) { Err(e) => Err(e), Ok((_, p)) =>
    match u8_at(b, p) { Err(e) => Err(e), Ok((version, p)) =>
        if version == 0 || version == 1 {
            superblock_v0_v1(b, p, version, offset)
        } else if version == 2 || version == 3 {
            superblock_v2_v3(b, p, version, offset)
        } else {
            Err((ErrorView::Unsupported("superblock version "@ + decimal(version as nat)), p))
        }
    }}
}

/// The superblock at `offset`, read from at most as many bytes as the longest one
/// takes.
pub open spec fn superblock_at(image: Image, offset: u64) -> std::result::Result<
    Superblock,
    ErrorView,
> {
    let left = image.bytes.len() - offset;
    let avail = if left < 0 {
        0
    } else if left > MAX_SUPERBLOCK_LEN {
        MAX_SUPERBLOCK_LEN as int
    } else {
        left
    };
    match image.fetch(offset as int, avail) {
        Err(e) => Err(e),
        Ok(b) => value_of(superblock_of(b, offset)),
    }
}

/// The superblock of the file.
pub open spec fn superblock_in(image: Image) -> std::result::Result<Superblock, ErrorView> {
    match signature_offset(image.bytes) {
        None => Err(
            ErrorView::Malformed("no HDF5 superblock signature found at any user-block offset"@),
        ),
        Some(p) => superblock_at(image, p as u64),
    }
}

impl Superblock {
    /// Find and parse the superblock.
    ///
    /// Probes offset 0 then each power-of-two user-block size, which is how the
    /// format allows an application to prepend its own bytes.
    pub fn read<S: ByteSource + ?Sized>(source: &S) -> (r: Result<Self>)
        ensures
            agrees(
                seen(r),
                superblock_in(source.image()),
                source.dependable() || source.image().bytes.len() < 8,
            ),
    {
        if source.size() >= 8 {
            let magic = source.read_vec(0, 8)?;
            if same_bytes(magic.as_slice(), HDF5_SIGNATURE.as_slice()) {
                return Self::parse_at(source, 0);
            }
        }
        match probe_user_blocks(source)? {
            Some(offset) => Self::parse_at(source, offset),
            None => Err(
                Error::malformed("no HDF5 superblock signature found at any user-block offset"),
            ),
        }
    }

    /// Parse a superblock whose signature starts at `offset`.
    pub fn parse_at<S: ByteSource + ?Sized>(source: &S, offset: u64) -> (r: Result<Self>)
        ensures
            agrees(
                seen(r),
                superblock_at(source.image(), offset),
                source.dependable() || source.image().bytes.len() < offset,
            ),
    {
        // The version byte decides the layout and therefore the length, so read
        // a block that every superblock variant fits in.
        let size: u64 = source.size();
        let left: u64 = if size > offset { size - offset } else { 0 };
        let avail: usize = if left > MAX_SUPERBLOCK_LEN as u64 {
            MAX_SUPERBLOCK_LEN
        } else {
            left as usize
        };
        let buf = source.read_vec(offset, avail)?;
        let mut cur = Cursor::new(buf.as_slice());
        cur.skip(8)?;  // signature, already matched
        let version: u8 = cur.u8()?;
        match version {
            0 | 1 => Self::parse_v0_v1(&mut cur, version, offset),
            2 | 3 => Self::parse_v2_v3(&mut cur, version, offset),
            other => Err(
                Error::Unsupported(numbered("superblock version ", other as u64)),
            ),
        }
    }

    fn parse_v0_v1(cur: &mut Cursor<'_>, version: u8, superblock_offset: u64) -> (r: Result<Self>)
        ensures
            seen(r) == value_of(
                superblock_v0_v1(
                    old(cur).buf@,
                    old(cur).pos as int,
                    version,
                    superblock_offset,
                ),
            ),
    {
        let _free_space_version: u8 = cur.u8()?;
        let _root_entry_version: u8 = cur.u8()?;
        cur.skip(1)?;  // reserved
        let _shared_header_version: u8 = cur.u8()?;
        let offset_size: u8 = cur.u8()?;
        let length_size: u8 = cur.u8()?;
        cur.skip(1)?;  // reserved
        let sizes = validate_sizes(offset_size, length_size)?;

        let group_leaf_node_k: u16 = cur.u16()?;
        let group_internal_node_k: u16 = cur.u16()?;
        let _consistency_flags: u32 = cur.u32()?;

        let indexed_storage_internal_node_k: u16 = if version == 1 {
            let k: u16 = cur.u16()?;
            cur.skip(2)?;  // reserved
            k
        } else {
            DEFAULT_ISTORE_K
        };

        let base_address: u64 = cur.uint(sizes.offset)?;
        let _free_space_info = cur.address(sizes)?;
        let end_of_file_address: u64 = cur.uint(sizes.offset)?;
        let _driver_info = cur.address(sizes)?;

        if cur.remaining() < SymbolTableEntry::encoded_len(sizes) {
            return Err(
                Error::malformed("superblock is truncated before the root group symbol table entry"),
            );
        }
        let entry = SymbolTableEntry::parse(cur, sizes)?;
        Ok(
            Superblock {
                version,
                sizes,
                superblock_offset,
                base_address,
                end_of_file_address,
                extension_address: None,
                root: RootGroup::SymbolTable(Box::new(entry)),
                group_internal_node_k,
                group_leaf_node_k,
                indexed_storage_internal_node_k,
            },
        )
    }

    fn parse_v2_v3(cur: &mut Cursor<'_>, version: u8, superblock_offset: u64) -> (r: Result<Self>)
        ensures
            seen(r) == value_of(
                superblock_v2_v3(
                    old(cur).buf@,
                    old(cur).pos as int,
                    version,
                    superblock_offset,
                ),
            ),
    {
        let offset_size: u8 = cur.u8()?;
        let length_size: u8 = cur.u8()?;
        let sizes = validate_sizes(offset_size, length_size)?;
        let _consistency_flags: u8 = cur.u8()?;

        let base_address: u64 = cur.uint(sizes.offset)?;
        let extension_address = cur.address(sizes)?;
        let end_of_file_address: u64 = cur.uint(sizes.offset)?;
        let root_object_header: u64 = cur.address_required(sizes, "root group object header")?;

        let checksum_pos: usize = cur.pos();
        let stored: u32 = cur.u32()?;
        let covered = slice_subrange(cur.buffer(), 0, checksum_pos);
        let computed: u32 = checksum::metadata(covered);
        assert(covered@ =~= cur.buf@.take(checksum_pos as int));
        if stored != computed {
            return Err(Error::ChecksumMismatch { what: "superblock", stored, computed });
        }
        Ok(
            Superblock {
                version,
                sizes,
                superblock_offset,
                base_address,
                end_of_file_address,
                extension_address,
                root: RootGroup::ObjectHeader(root_object_header),
                // Versions 2 and 3 do not store group B-tree ranks; the old-style
                // group layout they describe is never used with these versions.
                group_internal_node_k: 0,
                group_leaf_node_k: 0,
                indexed_storage_internal_node_k: DEFAULT_ISTORE_K,
            },
        )
    }

    /// Address of the root group's object header.
    pub fn root_object_header_address(&self) -> (r: Result<u64>)
        ensures
            seen(r) == match self.root {
                RootGroup::ObjectHeader(a) => Ok(a),
                RootGroup::SymbolTable(e) => match e.object_header_address {
                    Some(a) => Ok(a),
                    None => Err(ErrorView::Malformed("root group has no object header address"@)),
                },
            },
    {
        match &self.root {
            RootGroup::ObjectHeader(a) => Ok(*a),
            RootGroup::SymbolTable(e) => match e.object_header_address {
                Some(a) => Ok(a),
                None => Err(Error::malformed("root group has no object header address")),
            },
        }
    }

    /// The absolute offset of the stored address `address`.
    pub open spec fn resolved(self, address: u64) -> int {
        (self.base_address + address) % 0x1_0000_0000_0000_0000
    }

    /// Translate a stored address into an absolute file offset.
    ///
    /// Every address inside the file is relative to the base address, which is
    /// zero in practice but is not guaranteed to be.
    pub fn resolve(&self, address: u64) -> (r: u64)
        ensures
            r == self.resolved(address),
    {
        self.base_address.wrapping_add(address)
    }
}

fn validate_sizes(offset: u8, length: u8) -> (r: Result<Sizes>)
    ensures
        seen(r) == sizes_of(offset, length),
{
    check_width("offset", offset)?;
    check_width("length", length)?;
    Ok(Sizes { offset, length })
}

fn check_width(what: &str, v: u8) -> (r: Result<()>)
    ensures
        seen(r) == if width_is_plausible(v) {
            Ok(())
        } else {
            Err(implausible_width(what@, v))
        },
{
    if v == 1 || v == 2 || v == 4 || v == 8 {
        return Ok(());
    }
    let m = add_number(add_text(joined("size of ", what), "s is "), v as u64);
    Err(Error::Unsupported(add_text(m, " bytes; only 1, 2, 4 and 8 are supported")))
}

/// A version 2 or 3 superblock that was read carries the checksum of the bytes
/// before it.
pub proof fn later_superblocks_pass_their_checksum(b: Seq<u8>, offset: u64)
    requires
        superblock_of(b, offset) is Ok,
        superblock_of(b, offset)->Ok_0.0.version >= 2,
    ensures
        ({
            let end = superblock_of(b, offset)->Ok_0.1;
            &&& 4 <= end <= b.len()
            &&& u32_in(b, end - 4) == metadata_checksum(b.take(end - 4))
        }),
{
    let end = superblock_of(b, offset)->Ok_0.1;
    assert(take_at(b, end - 4, 4) is Ok);
}

} // verus!
