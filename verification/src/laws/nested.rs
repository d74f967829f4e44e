//! Datatypes that are made of other datatypes.
//!
//! The types inside stand inline. Each law takes what is read of them as given, and says
//! what is read of the type around them.

use vstd::prelude::*;

#[allow(unused_imports)]
use crate::bytes::{pow256, utf8_lossy};
#[allow(unused_imports)]
use crate::cursor::{
    align_at, cstring_at, cstring_padded_at, first_zero, fixed_string_at, skip_at, take_at, u32_at,
    u8_at, uint_at, Parse,
};
#[allow(unused_imports)]
use crate::laws::arrays::{extents_multiply, span};
#[allow(unused_imports)]
use crate::laws::datatypes::{
    a_datatype_starts_with_its_head, class_bits, four, has_head, lemma_class_bits, lemma_four,
};
#[allow(unused_imports)]
use crate::laws::writing::{
    holds, le, lemma_holds_taken, lemma_holds_uint, lemma_le_len,
};
#[allow(unused_imports)]
use crate::message::datatype::{
    array_at, array_dims_at, class_at, datatype_at, enum_at, member_head_at, members_at, names_at,
    offset_width, shaped, values_at, vlen_at, widened, CharSet, ClassView, DatatypeView,
    MemberHead, MemberView, StringPad, VlenKind,
};
#[allow(unused_imports)]
use crate::message::layout::u32s_at;
#[allow(unused_imports)]
use crate::shape::product;

verus! {

/// The datatype that stands at `p` is `d`, and it ends at `q`.
pub open spec fn is_type(b: Seq<u8>, p: int, d: DatatypeView, q: int) -> bool {
    datatype_at(b, p) == Parse::<DatatypeView>::Ok((d, q)) && p < q <= b.len()
}

// ── names ──────────────────────────────────────────────────────────────────

/// How many bytes a name takes: it ends in a zero, and before version 3 it is filled up
/// to a whole number of eight bytes.
pub open spec fn name_width(name: Seq<u8>, version: u8) -> int {
    if version >= 3 {
        name.len() as int + 1
    } else {
        (name.len() as int / 8 + 1) * 8
    }
}

/// The name stands at `p`.
pub open spec fn is_name(b: Seq<u8>, p: int, name: Seq<u8>, version: u8) -> bool {
    &&& holds(b, p, name.push(0))
    &&& p + name_width(name, version) <= b.len()
    &&& forall|i: int| 0 <= i < name.len() ==> name[i] != 0
}

proof fn lemma_zero(b: Seq<u8>, p: int, end: int)
    requires
        0 <= p <= end < b.len(),
        b[end] == 0,
        forall|i: int| p <= i < end ==> b[i] != 0,
    ensures
        first_zero(b, p) == end,
    decreases end - p,
{
    if p < end {
        lemma_zero(b, p + 1, end);
    }
}

proof fn lemma_name(b: Seq<u8>, p: int, name: Seq<u8>, version: u8)
    requires
        is_name(b, p, name, version),
    ensures
        version >= 3 ==> cstring_at(b, p) == Parse::<Seq<char>>::Ok(
            (utf8_lossy(name), p + name_width(name, version)),
        ),
        version < 3 ==> cstring_padded_at(b, p, 8) == Parse::<Seq<char>>::Ok(
            (utf8_lossy(name), p + name_width(name, version)),
        ),
{
    let s = b.subrange(p, p + name.len() + 1);
    let end = p + name.len();
    assert(s == name.push(0));
    assert(b[end] == s[name.len() as int]);
    assert forall|i: int| p <= i < end implies b[i] != 0 by {
        assert(b[i] == s[i - p]);
        assert(s[i - p] == name[i - p]);
    }
    lemma_zero(b, p, end);
    assert(b.subrange(p, end) =~= name) by {
        assert forall|i: int| 0 <= i < name.len() implies b.subrange(p, end)[i] == name[i] by {
            assert(b[p + i] == s[i]);
        }
    }
    if version < 3 {
        let used = name.len() as int + 1;
        assert((end + 1) - p == used);
        if used % 8 == 0 {
            assert((name.len() as int / 8 + 1) * 8 == used);
        } else {
            assert(used + (8 - used % 8) == (name.len() as int / 8 + 1) * 8);
        }
    }
}

// ── arrays and sequences ───────────────────────────────────────────────────

/// The extents stand one behind the other, four bytes each.
pub open spec fn are_extents(b: Seq<u8>, p: int, dims: Seq<u32>) -> bool {
    &&& 0 <= p
    &&& p + 4 * dims.len() <= b.len()
    &&& forall|i: int| 0 <= i < dims.len() ==> #[trigger] dims[i] == four(b, p + 4 * i)
}

proof fn lemma_extents(b: Seq<u8>, p: int, dims: Seq<u32>, done: int)
    requires
        are_extents(b, p, dims),
        0 <= done <= dims.len(),
    ensures
        u32s_at(b, p + 4 * done, (dims.len() - done) as nat, dims.take(done))
            == Parse::<Seq<u32>>::Ok((dims, p + 4 * dims.len())),
    decreases dims.len() - done,
{
    if done < dims.len() {
        lemma_four(b, p + 4 * done);
        assert(dims[done] == four(b, p + 4 * done));
        lemma_extents(b, p, dims, done + 1);
        assert(dims.take(done).push(dims[done]) =~= dims.take(done + 1));
    } else {
        assert(dims.take(done) =~= dims);
    }
}

/// Class 10 is an array: its rank, its extents, and the type of an element. In version 2
/// three bytes fill up the rank, and as many numbers as there are extents stand behind
/// them without a meaning.
pub proof fn an_array_says_its_extents(b: Seq<u8>, p: int, dims: Seq<u32>, base: DatatypeView, q: int)
    requires
        has_head(b, p),
        b[p] % 16 == 10,
        p + 9 <= b.len(),
        b[p + 8] == dims.len(),
        b[p] / 16 == 2 ==> are_extents(b, p + 12, dims) && is_type(
            b,
            p + 12 + 8 * dims.len(),
            base,
            q,
        ),
        b[p] / 16 != 2 ==> are_extents(b, p + 9, dims) && is_type(b, p + 9 + 4 * dims.len(), base, q),
    ensures
        is_type(
            b,
            p,
            (DatatypeView {
                version: b[p] / 16,
                size: four(b, p + 4) as u32,
                class: ClassView::Array { dims, base: Box::new(base) },
            }),
            q,
        ),
{
    let rank = dims.len() as int;
    a_datatype_starts_with_its_head(b, p);
    assert(u8_at(b, p + 8) == Parse::<u8>::Ok((b[p + 8], p + 9)));
    if b[p] / 16 == 2 {
        lemma_extents(b, p + 12, dims, 0);
        assert(dims.take(0) =~= Seq::empty());
        assert(skip_at(b, p + 9, 3) == Parse::<()>::Ok(((), p + 12)));
        assert(skip_at(b, p + 12 + 4 * rank, rank * 4) == Parse::<()>::Ok(((), p + 12 + 8 * rank)));
        assert(array_dims_at(b, p + 8, 2) == Parse::<Seq<u32>>::Ok((dims, p + 12 + 8 * rank)));
    } else {
        lemma_extents(b, p + 9, dims, 0);
        assert(dims.take(0) =~= Seq::empty());
        assert(array_dims_at(b, p + 8, b[p] / 16) == Parse::<Seq<u32>>::Ok(
            (dims, p + 9 + 4 * rank),
        ));
    }
}

/// Class 9 has values of any length. The low half of the first byte of class bits tells
/// a sequence from a string, the high half says how a string is padded, and the low half
/// of the second byte in which characters it is.
pub proof fn a_variable_length_type_says_what_it_holds(
    b: Seq<u8>,
    p: int,
    base: DatatypeView,
    q: int,
)
    requires
        has_head(b, p),
        b[p] % 16 == 9,
        is_type(b, p + 8, base, q),
    ensures
        datatype_at(b, p) is Ok <==> b[p + 1] % 16 <= 1 && b[p + 1] / 16 <= 2 && b[p + 2] % 16 <= 1,
        datatype_at(b, p) matches Ok((d, e)) ==> {
            &&& e == q
            &&& d.version == b[p] / 16
            &&& d.size == four(b, p + 4)
            &&& (d.class matches ClassView::VariableLength { kind, base: inner, pad, charset } && {
                &&& *inner == base
                &&& kind is Sequence <==> b[p + 1] % 16 == 0
                &&& kind is String <==> b[p + 1] % 16 == 1
                &&& pad is NullTerminate <==> b[p + 1] / 16 == 0
                &&& pad is NullPad <==> b[p + 1] / 16 == 1
                &&& pad is SpacePad <==> b[p + 1] / 16 == 2
                &&& charset is Ascii <==> b[p + 2] % 16 == 0
                &&& charset is Utf8 <==> b[p + 2] % 16 == 1
            })
        },
{
    a_datatype_starts_with_its_head(b, p);
    lemma_class_bits(b[p + 1], b[p + 2], b[p + 3], class_bits(b, p) as u32);
}

// ── what is opaque, and what is not read ───────────────────────────────────

/// Class 5 is opaque. The first byte of class bits is the length of its tag, which ends
/// at the first zero.
pub proof fn an_opaque_type_says_its_tag(b: Seq<u8>, p: int, tag: Seq<u8>)
    requires
        has_head(b, p),
        b[p] % 16 == 5,
        tag.len() < b[p + 1],
        p + 8 + b[p + 1] <= b.len(),
        is_name(b, p + 8, tag, 3),
    ensures
        datatype_at(b, p) == Parse::<DatatypeView>::Ok(
            (
                DatatypeView {
                    version: b[p] / 16,
                    size: four(b, p + 4) as u32,
                    class: ClassView::Opaque { tag: utf8_lossy(tag) },
                },
                p + 8 + b[p + 1],
            ),
        ),
{
    a_datatype_starts_with_its_head(b, p);
    lemma_class_bits(b[p + 1], b[p + 2], b[p + 3], class_bits(b, p) as u32);
    let n = b[p + 1] as int;
    let s = b.subrange(p + 8, p + 8 + n);
    let written = b.subrange(p + 8, p + 8 + tag.len() + 1);
    assert(written == tag.push(0));
    assert forall|i: int| 0 <= i <= tag.len() implies s[i] == tag.push(0)[i] by {
        assert(s[i] == written[i]);
    }
    lemma_zero(s, 0, tag.len() as int);
    assert(s.take(tag.len() as int) =~= tag);
}

/// A class that nothing else is said of is kept as its number, and nothing of it is read.
pub proof fn another_class_is_named(b: Seq<u8>, p: int)
    requires
        has_head(b, p),
        b[p] % 16 == 2 || b[p] % 16 == 4 || b[p] % 16 > 10,
    ensures
        datatype_at(b, p) == Parse::<DatatypeView>::Ok(
            (
                DatatypeView {
                    version: b[p] / 16,
                    size: four(b, p + 4) as u32,
                    class: ClassView::Unsupported { class: b[p] % 16 },
                },
                p + 8,
            ),
        ),
{
    a_datatype_starts_with_its_head(b, p);
}

// ── named constants ────────────────────────────────────────────────────────

/// The names stand one behind the other from `p` on.
pub open spec fn are_names(b: Seq<u8>, p: int, names: Seq<Seq<u8>>, version: u8) -> bool
    decreases names.len(),
{
    names.len() > 0 ==> is_name(b, p, names[0], version) && are_names(
        b,
        p + name_width(names[0], version),
        names.skip(1),
        version,
    )
}

/// How many bytes they take.
pub open spec fn names_width(names: Seq<Seq<u8>>, version: u8) -> int
    decreases names.len(),
{
    if names.len() == 0 {
        0
    } else {
        name_width(names[0], version) + names_width(names.skip(1), version)
    }
}

proof fn lemma_names(b: Seq<u8>, p: int, names: Seq<Seq<u8>>, version: u8, out: Seq<Seq<char>>)
    requires
        are_names(b, p, names, version),
    ensures
        names_at(b, p, version, names.len(), out) == Parse::<Seq<Seq<char>>>::Ok(
            (
                out + Seq::new(names.len(), |i: int| utf8_lossy(names[i])),
                p + names_width(names, version),
            ),
        ),
    decreases names.len(),
{
    let all = Seq::new(names.len(), |i: int| utf8_lossy(names[i]));
    if names.len() > 0 {
        let rest = names.skip(1);
        lemma_name(b, p, names[0], version);
        lemma_names(
            b,
            p + name_width(names[0], version),
            rest,
            version,
            out.push(utf8_lossy(names[0])),
        );
        let others = Seq::new(rest.len(), |i: int| utf8_lossy(rest[i]));
        assert(out.push(utf8_lossy(names[0])) + others =~= out + all);
    } else {
        assert(out + all =~= out);
    }
}

proof fn lemma_values(b: Seq<u8>, p: int, size: u32, values: Seq<Seq<u8>>, done: int)
    requires
        0 <= p,
        p + size * values.len() <= b.len(),
        forall|i: int|
            0 <= i < values.len() ==> #[trigger] values[i] == b.subrange(
                p + size * i,
                p + size * (i + 1),
            ),
        0 <= done <= values.len(),
    ensures
        values_at(b, p + size * done, size, (values.len() - done) as nat, values.take(done))
            == Parse::<Seq<Seq<u8>>>::Ok((values, p + size * values.len())),
    decreases values.len() - done,
{
    if done < values.len() {
        let at = p + size * done;
        assert(size * (done + 1) == size * done + size && 0 <= size * done && size * (done + 1)
            <= size * values.len()) by (nonlinear_arith)
            requires
                0 <= done < values.len(),
                0 <= size,
        ;
        assert(values[done] == b.subrange(p + size * done, p + size * (done + 1)));
        assert(take_at(b, at, size as int) == Parse::<Seq<u8>>::Ok((values[done], at + size)));
        lemma_values(b, p, size, values, done + 1);
        assert(values.take(done).push(values[done]) =~= values.take(done + 1));
    } else {
        assert(values.take(done) =~= values);
    }
}

/// Class 8 is an enumeration: the type of its values, all names, and all values. The
/// low two bytes of class bits say how many there are.
pub proof fn an_enumeration_names_its_values(
    b: Seq<u8>,
    p: int,
    base: DatatypeView,
    q: int,
    names: Seq<Seq<u8>>,
    values: Seq<Seq<u8>>,
)
    requires
        has_head(b, p),
        b[p] % 16 == 8,
        is_type(b, p + 8, base, q),
        names.len() == values.len() == b[p + 1] + 0x100 * b[p + 2],
        are_names(b, q, names, b[p] / 16),
        q + names_width(names, b[p] / 16) + base.size * values.len() <= b.len(),
        forall|i: int|
            0 <= i < values.len() ==> #[trigger] values[i] == b.subrange(
                q + names_width(names, b[p] / 16) + base.size * i,
                q + names_width(names, b[p] / 16) + base.size * (i + 1),
            ),
    ensures
        datatype_at(b, p) == Parse::<DatatypeView>::Ok(
            (
                DatatypeView {
                    version: b[p] / 16,
                    size: four(b, p + 4) as u32,
                    class: ClassView::Enum {
                        base: Box::new(base),
                        names: Seq::new(names.len(), |i: int| utf8_lossy(names[i])),
                        values,
                    },
                },
                q + names_width(names, b[p] / 16) + base.size * values.len(),
            ),
        ),
{
    let version = b[p] / 16;
    let all = Seq::new(names.len(), |i: int| utf8_lossy(names[i]));
    a_datatype_starts_with_its_head(b, p);
    lemma_class_bits(b[p + 1], b[p + 2], b[p + 3], class_bits(b, p) as u32);
    lemma_names(b, q, names, version, Seq::empty());
    assert(Seq::<Seq<char>>::empty() + all =~= all);
    lemma_names_width(names, version);
    let at = q + names_width(names, version);
    lemma_values(b, at, base.size, values, 0);
    assert(values.take(0) =~= Seq::empty());
    assert(at + base.size * 0 == at);
    assert(enum_at(b, p + 8, version, class_bits(b, p) as u32) == Parse::<ClassView>::Ok(
        (
            ClassView::Enum { base: Box::new(base), names: all, values },
            at + base.size * values.len(),
        ),
    ));
}

proof fn lemma_names_width(names: Seq<Seq<u8>>, version: u8)
    ensures
        names_width(names, version) >= 0,
    decreases names.len(),
{
    if names.len() > 0 {
        lemma_names_width(names.skip(1), version);
    }
}

// ── records ────────────────────────────────────────────────────────────────

/// A member of a record as it is written: its name, where it stands in an element, and
/// the type that is written behind it, which ends at `end`. In version 1 the member may
/// be an array of that type, of one to four extents.
pub struct Member {
    pub name: Seq<u8>,
    pub offset: u64,
    pub rank: u8,
    pub extents: Seq<u32>,
    pub base: DatatypeView,
    pub end: int,
}

/// Where a member is written.
pub open spec fn is_member(b: Seq<u8>, p: int, m: Member, version: u8, width: u8) -> bool {
    let at = p + name_width(m.name, version);
    &&& is_name(b, p, m.name, version)
    &&& if version == 1 {
        &&& at + 32 <= b.len()
        &&& four(b, at) == m.offset
        &&& b[at + 4] == m.rank
        &&& m.rank <= 4
        &&& m.extents.len() == 4
        &&& are_extents(b, at + 16, m.extents)
        &&& is_type(b, at + 32, m.base, m.end)
    } else if version == 2 {
        &&& at + 4 <= b.len()
        &&& four(b, at) == m.offset
        &&& m.rank == 0
        &&& is_type(b, at + 4, m.base, m.end)
    } else {
        &&& holds(b, at, le(m.offset as nat, width as nat))
        &&& m.offset < pow256(width as nat)
        &&& m.rank == 0
        &&& is_type(b, at + width, m.base, m.end)
    }
}

/// How many bytes the offset of a member takes from version 3 on: no more than a record
/// of that size needs, where twice as many fit as a number of that width can tell.
pub open spec fn is_offset_width(size: u32, width: u8) -> bool {
    &&& 1 <= width <= 4
    &&& width > 1 ==> 2 * pow256((width - 1) as nat) <= size
    &&& size < 2 * pow256(width as nat)
}

proof fn lemma_offset_width(size: u32, width: u8)
    requires
        is_offset_width(size, width),
    ensures
        offset_width(size) == width,
{
    crate::bytes::lemma_pow256_values();
    reveal_with_fuel(pow256, 5);
}

/// How many elements an array of these extents has.
pub open spec fn elements(dims: Seq<u32>) -> int {
    span(Seq::new(dims.len(), |i: int| dims[i] as u64), 0)
}

/// The type of a member: that which is written, or an array of it.
pub open spec fn member_type(m: Member, version: u8) -> DatatypeView {
    if m.rank == 0 {
        m.base
    } else {
        DatatypeView {
            version,
            size: (elements(m.extents.take(m.rank as int)) * m.base.size) as u32,
            class: ClassView::Array {
                dims: m.extents.take(m.rank as int),
                base: Box::new(m.base),
            },
        }
    }
}

/// An array of that type has a size.
pub open spec fn has_size(m: Member) -> bool {
    m.rank == 0 || elements(m.extents.take(m.rank as int)) * m.base.size <= u32::MAX
}

proof fn lemma_member_head(b: Seq<u8>, p: int, m: Member, version: u8, size: u32, width: u8)
    requires
        1 <= version <= 4,
        version >= 3 ==> is_offset_width(size, width),
        is_member(b, p, m, version, width),
    ensures
        member_head_at(b, p, version, size) matches Ok((head, q)) && {
            &&& head.name == utf8_lossy(m.name)
            &&& head.offset == m.offset
            &&& head.rank == m.rank
            &&& version == 1 ==> head.dims == m.extents
            &&& p < q <= b.len()
            &&& is_type(b, q, m.base, m.end)
        },
{
    let at = p + name_width(m.name, version);
    lemma_name(b, p, m.name, version);
    if version == 1 {
        lemma_four(b, at);
        lemma_four(b, at + 16);
        lemma_four(b, at + 20);
        lemma_four(b, at + 24);
        lemma_four(b, at + 28);
        assert(m.extents[0] == four(b, at + 16 + 4 * 0));
        assert(m.extents[1] == four(b, at + 16 + 4 * 1));
        assert(m.extents[2] == four(b, at + 16 + 4 * 2));
        assert(m.extents[3] == four(b, at + 16 + 4 * 3));
        assert(u8_at(b, at + 4) == Parse::<u8>::Ok((m.rank, at + 5)));
        assert(skip_at(b, at + 5, 3) == Parse::<()>::Ok(((), at + 8)));
        assert(skip_at(b, at + 8, 4) == Parse::<()>::Ok(((), at + 12)));
        assert(skip_at(b, at + 12, 4) == Parse::<()>::Ok(((), at + 16)));
        assert(m.extents =~= seq![m.extents[0], m.extents[1], m.extents[2], m.extents[3]]);
    } else if version == 2 {
        lemma_four(b, at);
    } else {
        lemma_offset_width(size, width);
        lemma_le_len(m.offset as nat, width as nat);
        lemma_holds_uint(b, at, m.offset as nat, width);
    }
}

proof fn lemma_member_type(m: Member, head: MemberHead, version: u8)
    requires
        has_size(m),
        head.rank == m.rank,
        m.rank > 0 ==> head.dims == m.extents && m.extents.len() == 4 && m.rank <= 4,
    ensures
        shaped(head, m.base, version) == Ok::<DatatypeView, crate::error::ErrorView>(
            member_type(m, version),
        ),
{
    if m.rank > 0 {
        let dims = m.extents.take(m.rank as int);
        let wide = widened(dims);
        extents_multiply(wide);
        assert(wide =~= Seq::new(dims.len(), |i: int| dims[i] as u64));
        assert(wide.push(m.base.size as u64).drop_last() =~= wide);
        assert(product(wide.push(m.base.size as u64)) == elements(dims) * m.base.size);
    }
}

/// The members stand one behind the other from `p` on.
pub open spec fn are_members(b: Seq<u8>, p: int, ms: Seq<Member>, version: u8, width: u8) -> bool
    decreases ms.len(),
{
    ms.len() > 0 ==> is_member(b, p, ms[0], version, width) && has_size(ms[0]) && are_members(
        b,
        ms[0].end,
        ms.skip(1),
        version,
        width,
    )
}

/// What is read of a member.
pub open spec fn member_read(m: Member, version: u8) -> MemberView {
    MemberView { name: utf8_lossy(m.name), offset: m.offset, datatype: member_type(m, version) }
}

/// One member is read, and the others behind it.
#[verifier::spinoff_prover]
#[verifier::rlimit(40)]
proof fn lemma_member_step(
    b: Seq<u8>,
    p: int,
    version: u8,
    size: u32,
    n: nat,
    out: Seq<MemberView>,
    head: MemberHead,
    q: int,
    m: Member,
)
    requires
        n > 0,
        member_head_at(b, p, version, size) == Parse::<MemberHead>::Ok((head, q)),
        p < q <= b.len(),
        is_type(b, q, m.base, m.end),
        shaped(head, m.base, version) == Ok::<DatatypeView, crate::error::ErrorView>(
            member_type(m, version),
        ),
        head.name == utf8_lossy(m.name),
        head.offset == m.offset,
    ensures
        members_at(b, p, version, size, n, out) == members_at(
            b,
            m.end,
            version,
            size,
            (n - 1) as nat,
            out.push(member_read(m, version)),
        ),
{
}

#[verifier::spinoff_prover]
#[verifier::rlimit(40)]
proof fn lemma_members(
    b: Seq<u8>,
    p: int,
    ms: Seq<Member>,
    version: u8,
    size: u32,
    width: u8,
    out: Seq<MemberView>,
)
    requires
        1 <= version <= 4,
        version >= 3 ==> is_offset_width(size, width),
        are_members(b, p, ms, version, width),
    ensures
        members_at(b, p, version, size, ms.len(), out) == Parse::<Seq<MemberView>>::Ok(
            (
                out + Seq::new(ms.len(), |i: int| member_read(ms[i], version)),
                if ms.len() == 0 {
                    p
                } else {
                    ms.last().end
                },
            ),
        ),
    decreases ms.len(),
{
    let all = Seq::new(ms.len(), |i: int| member_read(ms[i], version));
    if ms.len() > 0 {
        let m = ms[0];
        let rest = ms.skip(1);
        lemma_member_head(b, p, m, version, size, width);
        let (head, q) = member_head_at(b, p, version, size)->Ok_0;
        lemma_member_type(m, head, version);
        let next = out.push(member_read(m, version));
        lemma_member_step(b, p, version, size, ms.len(), out, head, q, m);
        lemma_members(b, m.end, rest, version, size, width, next);
        let others = Seq::new(rest.len(), |i: int| member_read(rest[i], version));
        assert(next + others =~= out + all);
        if rest.len() > 0 {
            assert(rest.last() == ms.last());
        } else {
            assert(ms.last() == m);
        }
    } else {
        assert(out + all =~= out);
    }
}

/// Class 6 is a record. The low two bytes of class bits say how many members it has;
/// each keeps its name, its offset and its type, in the order in which they are written.
pub proof fn a_record_lists_its_members(b: Seq<u8>, p: int, ms: Seq<Member>, width: u8)
    requires
        has_head(b, p),
        b[p] % 16 == 6,
        ms.len() == b[p + 1] + 0x100 * b[p + 2],
        b[p] / 16 >= 3 ==> is_offset_width(four(b, p + 4) as u32, width),
        are_members(b, p + 8, ms, b[p] / 16, width),
    ensures
        datatype_at(b, p) == Parse::<DatatypeView>::Ok(
            (
                DatatypeView {
                    version: b[p] / 16,
                    size: four(b, p + 4) as u32,
                    class: ClassView::Compound {
                        members: Seq::new(ms.len(), |i: int| member_read(ms[i], b[p] / 16)),
                    },
                },
                if ms.len() == 0 {
                    p + 8
                } else {
                    ms.last().end
                },
            ),
        ),
{
    let version = b[p] / 16;
    let all = Seq::new(ms.len(), |i: int| member_read(ms[i], version));
    a_datatype_starts_with_its_head(b, p);
    lemma_class_bits(b[p + 1], b[p + 2], b[p + 3], class_bits(b, p) as u32);
    lemma_members(b, p + 8, ms, version, four(b, p + 4) as u32, width, Seq::empty());
    assert(Seq::<MemberView>::empty() + all =~= all);
}

} // verus!
