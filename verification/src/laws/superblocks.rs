//! The start of a file: what kind of file it is, and its superblock.

use vstd::prelude::*;

#[allow(unused_imports)]
use crate::bytes::pow256;
#[allow(unused_imports)]
use crate::classic::variant_of;
#[allow(unused_imports)]
use crate::container::{
    container_of, signature_at, signature_from, signature_offset, Container, HDF5_SIGNATURE,
};
#[allow(unused_imports)]
use crate::cursor::{value_of, Parse, Sizes};
#[allow(unused_imports)]
use crate::error::ErrorView;
#[allow(unused_imports)]
use crate::laws::writing::{
    address, addressable, holds, le, lemma_holds_address, lemma_holds_both, lemma_holds_one,
    lemma_holds_taken, lemma_holds_u16, lemma_holds_u32, lemma_holds_uint, lemma_le_len,
    lemma_sealed, sealed,
};
#[allow(unused_imports)]
use crate::source::Image;
#[allow(unused_imports)]
use crate::superblock::{superblock_at, superblock_in, superblock_of, RootGroup, Superblock};
#[allow(unused_imports)]
use crate::symbol_table::{entry_at, SymbolTableEntry};

verus! {

/// The eight bytes that start a superblock.
pub open spec fn signature() -> Seq<u8> {
    seq![0x89u8, 0x48u8, 0x44u8, 0x46u8, 0x0du8, 0x0au8, 0x1au8, 0x0au8]
}

proof fn lemma_signature()
    ensures
        HDF5_SIGNATURE@ == signature(),
{
    assert(HDF5_SIGNATURE@ =~= signature());
}

/// An offset where a superblock may stand: the start of the file, or 512 bytes doubled
/// any number of times.
pub open spec fn is_doubling(p: int, from: int) -> bool
    decreases p,
{
    p == from || (p > 0 && p % 2 == 0 && is_doubling(p / 2, from))
}

proof fn lemma_doubling(p: int, from: int)
    requires
        from > 0,
        p > 0,
        is_doubling(p, 2 * from),
    ensures
        is_doubling(p, from),
        p >= 2 * from,
    decreases p,
{
    if p != 2 * from {
        lemma_doubling(p / 2, from);
    } else {
        assert(is_doubling(from, from));
        assert(p / 2 == from);
    }
}

proof fn lemma_next_doubling(p: int, from: int)
    requires
        from > 0,
        p > 0,
        is_doubling(p, from),
        p != from,
    ensures
        is_doubling(p, 2 * from),
    decreases p,
{
    if p / 2 != from {
        lemma_next_doubling(p / 2, from);
    } else {
        assert(p == 2 * from);
    }
}

proof fn lemma_found(b: Seq<u8>, from: int)
    requires
        from > 0,
    ensures
        signature_from(b, from) matches Some(q) ==> {
            &&& is_doubling(q, from)
            &&& holds(b, q, signature())
            &&& forall|p: int|
                from <= p < q && #[trigger] is_doubling(p, from) ==> !holds(b, p, signature())
        },
        signature_from(b, from) is None ==> forall|p: int|
            from <= p && #[trigger] is_doubling(p, from) ==> !holds(b, p, signature()),
    decreases (if b.len() > from {
        b.len() - from
    } else {
        0
    }),
{
    lemma_signature();
    if from + 8 > b.len() {
    } else if signature_at(b, from) {
    } else {
        lemma_found(b, 2 * from);
        assert forall|p: int|
            from <= p && #[trigger] is_doubling(p, from) && holds(b, p, signature()) implies {
            &&& signature_from(b, 2 * from) is Some
            &&& signature_from(b, 2 * from)->Some_0 <= p
        } by {
            assert(p != from);
            lemma_next_doubling(p, from);
            lemma_doubling(p, from);
        }
        if signature_from(b, 2 * from) is Some {
            let q = signature_from(b, 2 * from)->Some_0;
            if q <= 0 {
                assert(is_doubling(q, 2 * from));
            }
            lemma_doubling(q, from);
        }
    }
}

/// A superblock is looked for at the start of the file, then 512 bytes behind it, then
/// twice as far, and so on; the first place that holds the signature is taken.
pub proof fn the_first_signature_is_found(b: Seq<u8>)
    ensures
        holds(b, 0, signature()) ==> signature_offset(b) == Some(0int),
        !holds(b, 0, signature()) ==> (signature_offset(b) matches Some(q) ==> {
            &&& is_doubling(q, 512)
            &&& holds(b, q, signature())
            &&& forall|p: int|
                512 <= p < q && #[trigger] is_doubling(p, 512) ==> !holds(b, p, signature())
        }),
        !holds(b, 0, signature()) && signature_offset(b) is None ==> forall|p: int|
            512 <= p && #[trigger] is_doubling(p, 512) ==> !holds(b, p, signature()),
{
    lemma_signature();
    lemma_found(b, 512);
}

/// A file is known by its first bytes: the signature of HDF5, or `CDF` and a version.
/// HDF5 may also start later.
pub proof fn a_file_is_known_by_its_signature(b: Seq<u8>)
    ensures
        holds(b, 0, signature()) ==> container_of(b) == std::result::Result::<
            Container,
            ErrorView,
        >::Ok(Container::Hdf5),
        b.len() >= 8 && holds(b, 0, seq![0x43u8, 0x44u8, 0x46u8, 1u8]) ==> container_of(b)
            == std::result::Result::<Container, ErrorView>::Ok(Container::Cdf1),
        b.len() >= 8 && holds(b, 0, seq![0x43u8, 0x44u8, 0x46u8, 2u8]) ==> container_of(b)
            == std::result::Result::<Container, ErrorView>::Ok(Container::Cdf2),
        b.len() >= 8 && holds(b, 0, seq![0x43u8, 0x44u8, 0x46u8, 5u8]) ==> container_of(b)
            == std::result::Result::<Container, ErrorView>::Ok(Container::Cdf5),
        container_of(b) matches Ok(Container::Hdf5) ==> signature_offset(b) is Some,
        container_of(b) matches Ok(Container::Cdf1) ==> holds(
            b,
            0,
            seq![0x43u8, 0x44u8, 0x46u8, 1u8],
        ),
        container_of(b) matches Ok(Container::Cdf2) ==> holds(
            b,
            0,
            seq![0x43u8, 0x44u8, 0x46u8, 2u8],
        ),
        container_of(b) matches Ok(Container::Cdf5) ==> holds(
            b,
            0,
            seq![0x43u8, 0x44u8, 0x46u8, 5u8],
        ),
{
    lemma_signature();
    let s1 = seq![0x43u8, 0x44u8, 0x46u8, 1u8];
    let s2 = seq![0x43u8, 0x44u8, 0x46u8, 2u8];
    let s5 = seq![0x43u8, 0x44u8, 0x46u8, 5u8];
    assert(crate::container::CDF_SIGNATURES@[0]@ =~= s1);
    assert(crate::container::CDF_SIGNATURES@[1]@ =~= s2);
    assert(crate::container::CDF_SIGNATURES@[2]@ =~= s5);
    assert(s1[3] == 1 && s2[3] == 2 && s5[3] == 5 && s1[0] == 0x43 && s2[0] == 0x43 && s5[0]
        == 0x43);
    if b.len() >= 8 {
        assert(b.take(4) =~= b.subrange(0, 4));
        assert(b.subrange(0, 4)[0] == b[0] && b.subrange(0, 4)[3] == b[3]);
        assert(b.subrange(0, 8)[0] == b[0]);
        assert(signature()[0] == 0x89);
    }
}

// ── versions 2 and 3 ───────────────────────────────────────────────────────

/// A superblock of version 2 or 3.
pub open spec fn late_written(s: Superblock, flags: u8, root: u64) -> Seq<u8> {
    let w = s.sizes.offset as nat;
    sealed(
        signature() + (seq![s.version] + (seq![s.sizes.offset] + (seq![s.sizes.length] + (seq![
            flags,
        ] + (le(s.base_address as nat, w) + (address(s.extension_address, s.sizes) + (le(
            s.end_of_file_address as nat,
            w,
        ) + address(Some(root), s.sizes)))))))),
    )
}

/// A width that addresses and lengths may have.
pub open spec fn is_width(w: u8) -> bool {
    w == 1 || w == 2 || w == 4 || w == 8
}

/// A superblock of version 2 or 3 comes back as it was written.
#[verifier::spinoff_prover]
#[verifier::rlimit(60)]
pub proof fn a_late_superblock_reads_as_it_was_written(
    b: Seq<u8>,
    s: Superblock,
    flags: u8,
    root: u64,
    rest: Seq<u8>,
)
    requires
        s.version == 2 || s.version == 3,
        is_width(s.sizes.offset),
        is_width(s.sizes.length),
        s.base_address < pow256(s.sizes.offset as nat),
        s.end_of_file_address < pow256(s.sizes.offset as nat),
        addressable(s.extension_address, s.sizes),
        addressable(Some(root), s.sizes),
        b == late_written(s, flags, root) + rest,
    ensures
        value_of(superblock_of(b, s.superblock_offset)) matches Ok(r) && {
            &&& r.version == s.version
            &&& r.sizes == s.sizes
            &&& r.superblock_offset == s.superblock_offset
            &&& r.base_address == s.base_address
            &&& r.end_of_file_address == s.end_of_file_address
            &&& r.extension_address == s.extension_address
            &&& r.root == RootGroup::ObjectHeader(root)
        },
{
    let w = s.sizes.offset as nat;
    let o = s.sizes.offset as int;
    let t8 = address(Some(root), s.sizes);
    let t7 = le(s.end_of_file_address as nat, w) + t8;
    let t6 = address(s.extension_address, s.sizes) + t7;
    let t5 = le(s.base_address as nat, w) + t6;
    let t4 = seq![flags] + t5;
    let t3 = seq![s.sizes.length] + t4;
    let t2 = seq![s.sizes.offset] + t3;
    let t1 = seq![s.version] + t2;
    let body = signature() + t1;
    let whole = late_written(s, flags, root);
    assert(whole == sealed(body));
    lemma_sealed(body, Seq::empty());
    lemma_le_len(s.base_address as nat, w);
    lemma_le_len(s.end_of_file_address as nat, w);
    assert(b.subrange(0, body.len() as int) =~= body) by {
        assert(whole.subrange(0, body.len() as int) =~= body);
        assert(b.subrange(0, body.len() as int) =~= whole.subrange(0, body.len() as int));
    }
    assert(holds(b, 0, body));
    lemma_holds_both(b, 0, signature(), t1);
    lemma_holds_taken(b, 0, signature());
    lemma_holds_both(b, 8, seq![s.version], t2);
    lemma_holds_one(b, 8, s.version);
    lemma_holds_both(b, 9, seq![s.sizes.offset], t3);
    lemma_holds_one(b, 9, s.sizes.offset);
    lemma_holds_both(b, 10, seq![s.sizes.length], t4);
    lemma_holds_one(b, 10, s.sizes.length);
    lemma_holds_both(b, 11, seq![flags], t5);
    lemma_holds_one(b, 11, flags);
    lemma_holds_both(b, 12, le(s.base_address as nat, w), t6);
    lemma_holds_uint(b, 12, s.base_address as nat, s.sizes.offset);
    lemma_holds_both(b, 12 + o, address(s.extension_address, s.sizes), t7);
    lemma_holds_address(b, 12 + o, s.extension_address, s.sizes);
    lemma_holds_both(b, 12 + 2 * o, le(s.end_of_file_address as nat, w), t8);
    lemma_holds_uint(b, 12 + 2 * o, s.end_of_file_address as nat, s.sizes.offset);
    lemma_holds_address(b, 12 + 3 * o, Some(root), s.sizes);
    assert(crate::cursor::address_required_at(
        b,
        12 + 3 * o,
        s.sizes,
        "root group object header"@,
    ) == Parse::<u64>::Ok((root, 12 + 4 * o)));
    let q = 12 + 4 * o;
    assert(body.len() == q);
    assert(b.take(q) =~= body) by {
        assert(b.take(q) =~= b.subrange(0, q));
    }
    let sum = crate::checksum::metadata_checksum(body) as nat;
    lemma_le_len(sum, 4);
    assert(b.subrange(q, q + 4) =~= le(sum, 4));
    lemma_holds_u32(b, q, sum);
}

// ── versions 0 and 1 ───────────────────────────────────────────────────────

/// What an early superblock says that nothing reads.
pub struct Unread {
    pub free_space_version: u8,
    pub root_version: u8,
    pub reserved: u8,
    pub header_version: u8,
    pub gap: u8,
    pub flags: u32,
    pub more: Seq<u8>,
    pub free_space: Option<u64>,
    pub driver: Option<u64>,
    pub scratch: Seq<u8>,
}

/// The root group's entry: where its name is, where its header is, and what is cached.
pub open spec fn entry_written(e: SymbolTableEntry, scratch: Seq<u8>, sizes: Sizes) -> Seq<u8> {
    le(e.link_name_offset as nat, sizes.offset as nat) + (address(e.object_header_address, sizes)
        + (le(e.cache_type as nat, 4) + scratch))
}

/// The entry can be written.
pub open spec fn entry_fits(e: SymbolTableEntry, scratch: Seq<u8>, sizes: Sizes) -> bool {
    &&& e.link_name_offset < pow256(sizes.offset as nat)
    &&& addressable(e.object_header_address, sizes)
    &&& scratch.len() == 20
}

/// A symbol table entry comes back as it was written.
pub proof fn an_entry_reads_as_it_was_written(
    b: Seq<u8>,
    p: int,
    e: SymbolTableEntry,
    scratch: Seq<u8>,
    sizes: Sizes,
)
    requires
        entry_fits(e, scratch, sizes),
        holds(b, p, entry_written(e, scratch, sizes)),
    ensures
        entry_at(b, p, sizes) == Parse::<SymbolTableEntry>::Ok((e, p + 2 * sizes.offset + 24)),
        entry_written(e, scratch, sizes).len() == 2 * sizes.offset + 24,
{
    let w = sizes.offset as nat;
    let t2 = le(e.cache_type as nat, 4) + scratch;
    let t1 = address(e.object_header_address, sizes) + t2;
    lemma_le_len(e.link_name_offset as nat, w);
    lemma_le_len(e.cache_type as nat, 4);
    lemma_holds_both(b, p, le(e.link_name_offset as nat, w), t1);
    lemma_holds_uint(b, p, e.link_name_offset as nat, sizes.offset);
    lemma_holds_both(b, p + w, address(e.object_header_address, sizes), t2);
    lemma_holds_address(b, p + w, e.object_header_address, sizes);
    lemma_holds_both(b, p + 2 * w, le(e.cache_type as nat, 4), scratch);
    lemma_holds_u32(b, p + 2 * w, e.cache_type as nat);
    lemma_holds_taken(b, p + 2 * w + 4, scratch);
}

/// A superblock of version 0 or 1.
pub open spec fn early_written(s: Superblock, u: Unread, e: SymbolTableEntry) -> Seq<u8> {
    signature() + (seq![s.version] + (seq![u.free_space_version] + (seq![u.root_version] + (seq![
        u.reserved,
    ] + (seq![u.header_version] + (seq![s.sizes.offset] + (seq![s.sizes.length] + (seq![u.gap]
        + early_ranks(s, u, e)))))))))
}

/// The ranks of the B-trees, and what follows them. Version 1 has four bytes more, which
/// start with the rank of the B-trees that index chunks.
pub open spec fn early_ranks(s: Superblock, u: Unread, e: SymbolTableEntry) -> Seq<u8> {
    le(s.group_leaf_node_k as nat, 2) + (le(s.group_internal_node_k as nat, 2) + (le(
        u.flags as nat,
        4,
    ) + (early_chunk_rank(s, u) + early_addresses(s, u, e))))
}

/// The four bytes that only version 1 has.
pub open spec fn early_chunk_rank(s: Superblock, u: Unread) -> Seq<u8> {
    if s.version == 1 {
        le(s.indexed_storage_internal_node_k as nat, 2) + u.more
    } else {
        Seq::empty()
    }
}

/// The addresses that end an early superblock.
pub open spec fn early_addresses(s: Superblock, u: Unread, e: SymbolTableEntry) -> Seq<u8> {
    let w = s.sizes.offset as nat;
    le(s.base_address as nat, w) + (address(u.free_space, s.sizes) + (le(
        s.end_of_file_address as nat,
        w,
    ) + (address(u.driver, s.sizes) + entry_written(e, u.scratch, s.sizes))))
}

proof fn lemma_early_addresses(
    b: Seq<u8>,
    p: int,
    s: Superblock,
    u: Unread,
    e: SymbolTableEntry,
)
    requires
        is_width(s.sizes.offset),
        s.base_address < pow256(s.sizes.offset as nat),
        s.end_of_file_address < pow256(s.sizes.offset as nat),
        addressable(u.free_space, s.sizes),
        addressable(u.driver, s.sizes),
        entry_fits(e, u.scratch, s.sizes),
        holds(b, p, early_addresses(s, u, e)),
    ensures
        ({
            let o = s.sizes.offset as int;
            &&& crate::cursor::uint_at(b, p, s.sizes.offset) == Parse::<u64>::Ok(
                (s.base_address, p + o),
            )
            &&& crate::cursor::address_at(b, p + o, s.sizes) == Parse::<Option<u64>>::Ok(
                (u.free_space, p + 2 * o),
            )
            &&& crate::cursor::uint_at(b, p + 2 * o, s.sizes.offset) == Parse::<u64>::Ok(
                (s.end_of_file_address, p + 3 * o),
            )
            &&& crate::cursor::address_at(b, p + 3 * o, s.sizes) == Parse::<Option<u64>>::Ok(
                (u.driver, p + 4 * o),
            )
            &&& entry_at(b, p + 4 * o, s.sizes) == Parse::<SymbolTableEntry>::Ok(
                (e, p + 6 * o + 24),
            )
            &&& p + 6 * o + 24 <= b.len()
        }),
{
    let w = s.sizes.offset as nat;
    let o = s.sizes.offset as int;
    let t4 = entry_written(e, u.scratch, s.sizes);
    let t3 = address(u.driver, s.sizes) + t4;
    let t2 = le(s.end_of_file_address as nat, w) + t3;
    let t1 = address(u.free_space, s.sizes) + t2;
    lemma_le_len(s.base_address as nat, w);
    lemma_le_len(s.end_of_file_address as nat, w);
    lemma_holds_both(b, p, le(s.base_address as nat, w), t1);
    lemma_holds_uint(b, p, s.base_address as nat, s.sizes.offset);
    lemma_holds_both(b, p + o, address(u.free_space, s.sizes), t2);
    lemma_holds_address(b, p + o, u.free_space, s.sizes);
    lemma_holds_both(b, p + 2 * o, le(s.end_of_file_address as nat, w), t3);
    lemma_holds_uint(b, p + 2 * o, s.end_of_file_address as nat, s.sizes.offset);
    lemma_holds_both(b, p + 3 * o, address(u.driver, s.sizes), t4);
    lemma_holds_address(b, p + 3 * o, u.driver, s.sizes);
    an_entry_reads_as_it_was_written(b, p + 4 * o, e, u.scratch, s.sizes);
}

/// A superblock of version 0 or 1 comes back as it was written.
#[verifier::spinoff_prover]
#[verifier::rlimit(80)]
pub proof fn an_early_superblock_reads_as_it_was_written(
    b: Seq<u8>,
    s: Superblock,
    u: Unread,
    e: SymbolTableEntry,
)
    requires
        s.version == 0 || s.version == 1,
        is_width(s.sizes.offset),
        is_width(s.sizes.length),
        s.base_address < pow256(s.sizes.offset as nat),
        s.end_of_file_address < pow256(s.sizes.offset as nat),
        addressable(u.free_space, s.sizes),
        addressable(u.driver, s.sizes),
        u.more.len() == 2,
        entry_fits(e, u.scratch, s.sizes),
        holds(b, 0, early_written(s, u, e)),
    ensures
        value_of(superblock_of(b, s.superblock_offset)) matches Ok(r) && {
            &&& r.version == s.version
            &&& r.sizes == s.sizes
            &&& r.superblock_offset == s.superblock_offset
            &&& r.base_address == s.base_address
            &&& r.end_of_file_address == s.end_of_file_address
            &&& r.extension_address is None
            &&& r.root == RootGroup::SymbolTable(Box::new(e))
            &&& r.group_leaf_node_k == s.group_leaf_node_k
            &&& r.group_internal_node_k == s.group_internal_node_k
            &&& s.version == 1 ==> r.indexed_storage_internal_node_k
                == s.indexed_storage_internal_node_k
            &&& s.version == 0 ==> r.indexed_storage_internal_node_k == 32
        },
{
    let tail = early_addresses(s, u, e);
    let mid = early_chunk_rank(s, u);
    let t11 = mid + tail;
    let t10 = le(u.flags as nat, 4) + t11;
    let t9 = le(s.group_internal_node_k as nat, 2) + t10;
    let t8 = le(s.group_leaf_node_k as nat, 2) + t9;
    let t7 = seq![u.gap] + t8;
    let t6 = seq![s.sizes.length] + t7;
    let t5 = seq![s.sizes.offset] + t6;
    let t4 = seq![u.header_version] + t5;
    let t3 = seq![u.reserved] + t4;
    let t2 = seq![u.root_version] + t3;
    let t1 = seq![u.free_space_version] + t2;
    lemma_le_len(u.flags as nat, 4);
    lemma_le_len(s.group_internal_node_k as nat, 2);
    lemma_le_len(s.group_leaf_node_k as nat, 2);
    lemma_holds_both(b, 0, signature(), seq![s.version] + t1);
    lemma_holds_taken(b, 0, signature());
    lemma_holds_both(b, 8, seq![s.version], t1);
    lemma_holds_one(b, 8, s.version);
    lemma_holds_both(b, 9, seq![u.free_space_version], t2);
    lemma_holds_one(b, 9, u.free_space_version);
    lemma_holds_both(b, 10, seq![u.root_version], t3);
    lemma_holds_one(b, 10, u.root_version);
    lemma_holds_both(b, 11, seq![u.reserved], t4);
    lemma_holds_taken(b, 11, seq![u.reserved]);
    lemma_holds_both(b, 12, seq![u.header_version], t5);
    lemma_holds_one(b, 12, u.header_version);
    lemma_holds_both(b, 13, seq![s.sizes.offset], t6);
    lemma_holds_one(b, 13, s.sizes.offset);
    lemma_holds_both(b, 14, seq![s.sizes.length], t7);
    lemma_holds_one(b, 14, s.sizes.length);
    lemma_holds_both(b, 15, seq![u.gap], t8);
    lemma_holds_taken(b, 15, seq![u.gap]);
    lemma_holds_both(b, 16, le(s.group_leaf_node_k as nat, 2), t9);
    lemma_holds_u16(b, 16, s.group_leaf_node_k as nat);
    lemma_holds_both(b, 18, le(s.group_internal_node_k as nat, 2), t10);
    lemma_holds_u16(b, 18, s.group_internal_node_k as nat);
    lemma_holds_both(b, 20, le(u.flags as nat, 4), t11);
    lemma_holds_u32(b, 20, u.flags as nat);
    lemma_holds_both(b, 24, mid, tail);
    if s.version == 1 {
        lemma_le_len(s.indexed_storage_internal_node_k as nat, 2);
        lemma_holds_both(b, 24, le(s.indexed_storage_internal_node_k as nat, 2), u.more);
        lemma_holds_u16(b, 24, s.indexed_storage_internal_node_k as nat);
        lemma_holds_taken(b, 26, u.more);
        lemma_early_addresses(b, 28, s, u, e);
    } else {
        lemma_early_addresses(b, 24, s, u, e);
    }
}

/// Addresses count from the base address.
pub proof fn addresses_count_from_the_base(s: Superblock, at: u64)
    requires
        s.base_address + at <= u64::MAX,
    ensures
        s.resolved(at) == s.base_address + at,
{
}

/// The superblock of a file is the one that stands where the signature is.
pub proof fn the_superblock_stands_at_the_signature(image: Image, p: u64)
    requires
        signature_offset(image.bytes) == Some(p as int),
        0 <= p <= image.bytes.len(),
    ensures
        ({
            let left = image.bytes.len() - p;
            let n = if left > 100 {
                100
            } else {
                left
            };
            superblock_in(image) == value_of(
                superblock_of(image.bytes.subrange(p as int, p + n), p),
            )
        }),
{
}

} // verus!
