//! The datatype message: how to interpret the bytes of one element.
//!
//! HDF5 datatypes are a general system. netCDF-4 uses a narrow slice of it:
//! fixed-point and floating-point numbers, fixed-length strings, and
//! variable-length sequences of object references for the `DIMENSION_LIST`
//! attribute that ties a variable to its dimensions.
//!
//! Everything is parsed into [`Datatype`], including classes this reader cannot
//! decode values for. Knowing that a variable is a compound type is useful even
//! when reading it is not yet possible, because the caller can then fall back to
//! netcdf-c for that one variable instead of failing the whole file.

use vstd::prelude::*;
use vstd::slice::slice_to_vec;

use crate::cursor::Cursor;
#[allow(unused_imports)]
use crate::cursor::{
    cstring_at, cstring_padded_at, first_zero, fixed_string_at, lemma_first_zero, skip_at, take_at,
    u16_at, u32_at, u32_in, u8_at, uint_at, value_of, Parse,
};
use crate::error::{Error, Result};
#[allow(unused_imports)]
use crate::error::{seen, ErrorView};
use crate::shape::checked_product;
#[allow(unused_imports)]
use crate::shape::product;
use crate::text::numbered;
#[allow(unused_imports)]
use crate::text::decimal;
#[allow(unused_imports)]
use crate::views::views;

verus! {

broadcast use crate::views::group_views;

/// Byte order of a numeric datatype.
#[derive(Debug, Clone, Copy, PartialEq, Eq, Structural)]
pub enum ByteOrder {
    /// Least significant byte first.
    Little,
    /// Most significant byte first.
    Big,
}

/// How a fixed-length string is padded out to its declared width.
#[derive(Debug, Clone, Copy, PartialEq, Eq, Structural)]
pub enum StringPad {
    /// Terminated by a NUL, remainder unspecified.
    NullTerminate,
    /// Padded with NULs.
    NullPad,
    /// Padded with spaces, with no terminator. This is the Fortran convention,
    /// and netCDF character variables use it.
    SpacePad,
}

/// Character set of a string datatype.
#[derive(Debug, Clone, Copy, PartialEq, Eq, Structural)]
pub enum CharSet {
    /// 7-bit ASCII.
    Ascii,
    /// UTF-8.
    Utf8,
}

/// What a variable-length datatype holds.
#[derive(Debug, Clone, Copy, PartialEq, Eq, Structural)]
pub enum VlenKind {
    /// A sequence of the base type.
    Sequence,
    /// A string.
    String,
}

/// One member of a compound datatype.
#[derive(Debug, PartialEq)]
pub struct CompoundMember {
    /// Member name.
    pub name: String,
    /// Byte offset of the member within the compound element.
    pub offset: u64,
    /// Member type.
    pub datatype: Datatype,
}

/// The class-specific part of a datatype.
#[derive(Debug, PartialEq)]
pub enum DatatypeClass {
    /// An integer.
    FixedPoint {
        /// Byte order.
        order: ByteOrder,
        /// Whether the value is two's-complement signed.
        signed: bool,
        /// First significant bit within the element.
        bit_offset: u16,
        /// Number of significant bits.
        bit_precision: u16,
    },
    /// An IEEE floating-point number.
    FloatingPoint {
        /// Byte order.
        order: ByteOrder,
        /// First significant bit within the element.
        bit_offset: u16,
        /// Number of significant bits.
        bit_precision: u16,
        /// Bit position of the exponent.
        exponent_location: u8,
        /// Width of the exponent in bits.
        exponent_size: u8,
        /// Bit position of the mantissa.
        mantissa_location: u8,
        /// Width of the mantissa in bits.
        mantissa_size: u8,
        /// Exponent bias.
        exponent_bias: u32,
        /// Bit position of the sign.
        sign_location: u8,
    },
    /// A fixed-length string. The width is the datatype's `size`.
    String {
        /// How the value is padded to the full width.
        pad: StringPad,
        /// Character set.
        charset: CharSet,
    },
    /// An opaque blob with a descriptive tag.
    Opaque {
        /// Application-supplied tag.
        tag: String,
    },
    /// A record of named members.
    Compound {
        /// The members, in declaration order.
        members: Vec<CompoundMember>,
    },
    /// A reference to another object or to a region of a dataset.
    Reference {
        /// Reference flavour, straight from the bit field.
        kind: u8,
    },
    /// A named-constant type over an integer base.
    Enum {
        /// The underlying integer type.
        base: Box<Datatype>,
        /// Constant names.
        names: Vec<String>,
        /// Raw constant values, each `base.size` bytes wide.
        values: Vec<Vec<u8>>,
    },
    /// A variable-length sequence or string, stored through the global heap.
    VariableLength {
        /// Whether this is a sequence or a string.
        kind: VlenKind,
        /// Element type of the sequence, or the character type of the string.
        base: Box<Datatype>,
        /// Padding rule, for the string flavour.
        pad: StringPad,
        /// Character set, for the string flavour.
        charset: CharSet,
    },
    /// A fixed-shape array of the base type.
    Array {
        /// Shape of the array.
        dims: Vec<u32>,
        /// Element type.
        base: Box<Datatype>,
    },
    /// A class this reader does not decode.
    Unsupported {
        /// The class code from the file.
        class: u8,
    },
}

/// A parsed datatype message.
#[derive(Debug, PartialEq)]
pub struct Datatype {
    /// On-disk version of the message.
    pub version: u8,
    /// Width of one element in bytes.
    pub size: u32,
    /// The class-specific detail.
    pub class: DatatypeClass,
}

/// What a [`CompoundMember`] says.
pub struct MemberView {
    pub name: Seq<char>,
    pub offset: u64,
    pub datatype: DatatypeView,
}

/// What a [`DatatypeClass`] says.
pub enum ClassView {
    FixedPoint { order: ByteOrder, signed: bool, bit_offset: u16, bit_precision: u16 },
    FloatingPoint {
        order: ByteOrder,
        bit_offset: u16,
        bit_precision: u16,
        exponent_location: u8,
        exponent_size: u8,
        mantissa_location: u8,
        mantissa_size: u8,
        exponent_bias: u32,
        sign_location: u8,
    },
    String { pad: StringPad, charset: CharSet },
    Opaque { tag: Seq<char> },
    Compound { members: Seq<MemberView> },
    Reference { kind: u8 },
    Enum { base: Box<DatatypeView>, names: Seq<Seq<char>>, values: Seq<Seq<u8>> },
    VariableLength { kind: VlenKind, base: Box<DatatypeView>, pad: StringPad, charset: CharSet },
    Array { dims: Seq<u32>, base: Box<DatatypeView> },
    Unsupported { class: u8 },
}

/// What a [`Datatype`] says.
pub struct DatatypeView {
    pub version: u8,
    pub size: u32,
    pub class: ClassView,
}

/// The view of a class.
pub open spec fn class_view(c: DatatypeClass) -> ClassView
    decreases c,
{
    match c {
        DatatypeClass::FixedPoint { order, signed, bit_offset, bit_precision } =>
            ClassView::FixedPoint { order, signed, bit_offset, bit_precision },
        DatatypeClass::FloatingPoint {
            order,
            bit_offset,
            bit_precision,
            exponent_location,
            exponent_size,
            mantissa_location,
            mantissa_size,
            exponent_bias,
            sign_location,
        } => ClassView::FloatingPoint {
            order,
            bit_offset,
            bit_precision,
            exponent_location,
            exponent_size,
            mantissa_location,
            mantissa_size,
            exponent_bias,
            sign_location,
        },
        DatatypeClass::String { pad, charset } => ClassView::String { pad, charset },
        DatatypeClass::Opaque { tag } => ClassView::Opaque { tag: tag@ },
        DatatypeClass::Compound { members } => ClassView::Compound {
            members: Seq::new(
                members@.len(),
                |i: int|
                    if 0 <= i < members@.len() {
                        MemberView {
                            name: members@[i].name@,
                            offset: members@[i].offset,
                            datatype: datatype_view(members@[i].datatype),
                        }
                    } else {
                        arbitrary()
                    },
            ),
        },
        DatatypeClass::Reference { kind } => ClassView::Reference { kind },
        DatatypeClass::Enum { base, names, values } => ClassView::Enum {
            base: Box::new(datatype_view(*base)),
            names: views(names@),
            values: views(values@),
        },
        DatatypeClass::VariableLength { kind, base, pad, charset } => ClassView::VariableLength {
            kind,
            base: Box::new(datatype_view(*base)),
            pad,
            charset,
        },
        DatatypeClass::Array { dims, base } => ClassView::Array {
            dims: dims@,
            base: Box::new(datatype_view(*base)),
        },
        DatatypeClass::Unsupported { class } => ClassView::Unsupported { class },
    }
}

/// The view of a datatype.
pub open spec fn datatype_view(d: Datatype) -> DatatypeView
    decreases d,
{
    DatatypeView { version: d.version, size: d.size, class: class_view(d.class) }
}

impl View for Datatype {
    type V = DatatypeView;

    open spec fn view(&self) -> DatatypeView {
        datatype_view(*self)
    }
}

impl View for DatatypeClass {
    type V = ClassView;

    open spec fn view(&self) -> ClassView {
        class_view(*self)
    }
}

impl View for CompoundMember {
    type V = MemberView;

    open spec fn view(&self) -> MemberView {
        MemberView { name: self.name@, offset: self.offset, datatype: self.datatype@ }
    }
}

/// Shows a vector of members as the members of a compound class.
proof fn lemma_compound_view(members: Vec<CompoundMember>)
    ensures
        class_view(DatatypeClass::Compound { members }) == (ClassView::Compound {
            members: views(members@),
        }),
{
    assert(class_view(DatatypeClass::Compound { members })->members =~= views(members@));
}

/// Width of the member-offset field in a version 3 or 4 compound datatype: the
/// fewest bytes, `(floor(log2(size)) + 7) / 8` and at least one.
pub open spec fn offset_width(size: u32) -> u8 {
    if size < 0x200 {
        1
    } else if size < 0x2_0000 {
        2
    } else if size < 0x200_0000 {
        3
    } else {
        4
    }
}

/// The padding that a code stands for.
pub open spec fn pad_of(code: u32) -> std::result::Result<StringPad, ErrorView> {
    if code == 0 {
        Ok(StringPad::NullTerminate)
    } else if code == 1 {
        Ok(StringPad::NullPad)
    } else if code == 2 {
        Ok(StringPad::SpacePad)
    } else {
        Err(ErrorView::Malformed("string padding code "@ + decimal(code as nat)))
    }
}

/// The character set that a code stands for.
pub open spec fn charset_of(code: u32) -> std::result::Result<CharSet, ErrorView> {
    if code == 0 {
        Ok(CharSet::Ascii)
    } else if code == 1 {
        Ok(CharSet::Utf8)
    } else {
        Err(ErrorView::Unsupported("character set code "@ + decimal(code as nat)))
    }
}

/// An integer type.
pub open spec fn fixed_point_at(b: Seq<u8>, p: int, bits: u32) -> Parse<ClassView> {
    match u16_at(b, p) { Err(e) => Err(e), Ok((bit_offset, p)) =>
    match u16_at(b, p) { Err(e) => Err(e), Ok((bit_precision, p)) =>
        Ok((ClassView::FixedPoint {
            order: if bits & 0x01 == 0 { ByteOrder::Little } else { ByteOrder::Big },
            signed: bits & 0x08 != 0,
            bit_offset,
            bit_precision,
        }, p)) }}
}

/// A floating-point type. Bit 0 of the bit field is the low bit of the byte
/// order and bit 6 the high bit; a set high bit means VAX order.
pub open spec fn floating_point_at(b: Seq<u8>, p: int, bits: u32) -> Parse<ClassView> {
    if bits & 0x40 != 0 {
        Err((ErrorView::Unsupported("VAX-order floating point (mixed-endian)"@), p))
    } else {
        match u16_at(b, p) { Err(e) => Err(e), Ok((bit_offset, p)) =>
        match u16_at(b, p) { Err(e) => Err(e), Ok((bit_precision, p)) =>
        match u8_at(b, p) { Err(e) => Err(e), Ok((exponent_location, p)) =>
        match u8_at(b, p) { Err(e) => Err(e), Ok((exponent_size, p)) =>
        match u8_at(b, p) { Err(e) => Err(e), Ok((mantissa_location, p)) =>
        match u8_at(b, p) { Err(e) => Err(e), Ok((mantissa_size, p)) =>
        match u32_at(b, p) { Err(e) => Err(e), Ok((exponent_bias, p)) =>
            Ok((ClassView::FloatingPoint {
                order: if bits & 0x01 == 0 { ByteOrder::Little } else { ByteOrder::Big },
                bit_offset,
                bit_precision,
                exponent_location,
                exponent_size,
                mantissa_location,
                mantissa_size,
                exponent_bias,
                sign_location: ((bits >> 8) & 0xFF) as u8,
            }, p)) }}}}}}}
    }
}

/// A fixed-length string type, which the bit field describes whole.
pub open spec fn string_class(bits: u32) -> std::result::Result<ClassView, ErrorView> {
    match pad_of(bits & 0x0F) { Err(e) => Err(e), Ok(pad) =>
    match charset_of((bits >> 4) & 0x0F) { Err(e) => Err(e), Ok(charset) =>
        Ok(ClassView::String { pad, charset }) }}
}

/// An opaque type: the low byte of the bit field is the length of its tag.
pub open spec fn opaque_at(b: Seq<u8>, p: int, bits: u32) -> Parse<ClassView> {
    match fixed_string_at(b, p, (bits & 0xFF) as int) {
        Err(e) => Err(e),
        Ok((tag, q)) => Ok((ClassView::Opaque { tag }, q)),
    }
}

/// What stands before the type of a compound member. Version 1 members carry
/// a rank and four extents of an inline array.
pub struct MemberHead {
    pub name: Seq<char>,
    pub offset: u64,
    pub rank: u8,
    pub dims: Seq<u32>,
}

/// The head of a compound member.
pub open spec fn member_head_at(b: Seq<u8>, p: int, version: u8, size: u32) -> Parse<MemberHead> {
    if version == 1 {
        match cstring_padded_at(b, p, 8) { Err(e) => Err(e), Ok((name, p)) =>
        match u32_at(b, p) { Err(e) => Err(e), Ok((offset, p)) =>
        match u8_at(b, p) { Err(e) => Err(e), Ok((rank, p)) =>
        match skip_at(b, p, 3) { Err(e) => Err(e), Ok((_, p)) =>
        match skip_at(b, p, 4) { Err(e) => Err(e), Ok((_, p)) =>
        match skip_at(b, p, 4) { Err(e) => Err(e), Ok((_, p)) =>
        match u32_at(b, p) { Err(e) => Err(e), Ok((d0, p)) =>
        match u32_at(b, p) { Err(e) => Err(e), Ok((d1, p)) =>
        match u32_at(b, p) { Err(e) => Err(e), Ok((d2, p)) =>
        match u32_at(b, p) { Err(e) => Err(e), Ok((d3, p)) =>
            Ok((MemberHead { name, offset: offset as u64, rank, dims: seq![d0, d1, d2, d3] }, p))
        }}}}}}}}}}
    } else if version == 2 {
        match cstring_padded_at(b, p, 8) { Err(e) => Err(e), Ok((name, p)) =>
        match u32_at(b, p) { Err(e) => Err(e), Ok((offset, p)) =>
            Ok((MemberHead { name, offset: offset as u64, rank: 0, dims: Seq::empty() }, p)) }}
    } else if version == 3 || version == 4 {
        match cstring_at(b, p) { Err(e) => Err(e), Ok((name, p)) =>
        match uint_at(b, p, offset_width(size)) { Err(e) => Err(e), Ok((offset, p)) =>
            Ok((MemberHead { name, offset, rank: 0, dims: Seq::empty() }, p)) }}
    } else {
        Err((ErrorView::Unsupported("compound datatype version "@ + decimal(version as nat)), p))
    }
}

/// Each extent, as a 64-bit number.
pub open spec fn widened(dims: Seq<u32>) -> Seq<u64> {
    Seq::new(dims.len(), |i: int| dims[i] as u64)
}

/// The type of a member whose head is `head` and whose element type is `base`:
/// the base itself, or an array of it where the head gives a rank.
pub open spec fn shaped(head: MemberHead, base: DatatypeView, version: u8) -> std::result::Result<
    DatatypeView,
    ErrorView,
> {
    if head.rank == 0 {
        Ok(base)
    } else if head.rank > head.dims.len() {
        Err(
            ErrorView::Malformed(
                "compound member declares an array of rank "@ + decimal(head.rank as nat),
            ),
        )
    } else {
        let dims = head.dims.take(head.rank as int);
        let size = product(widened(dims).push(base.size as u64));
        if size > u32::MAX {
            Err(ErrorView::Malformed("compound member array size does not fit in 32 bits"@))
        } else {
            Ok(
                DatatypeView {
                    version,
                    size: size as u32,
                    class: ClassView::Array { dims, base: Box::new(base) },
                },
            )
        }
    }
}

/// `n` compound members, read behind those in `out`. A datatype takes at least
/// eight bytes, so the position moves on with every member.
pub open spec fn members_at(
    b: Seq<u8>,
    p: int,
    version: u8,
    size: u32,
    n: nat,
    out: Seq<MemberView>,
) -> Parse<Seq<MemberView>>
    decreases b.len() - p, 1nat,
{
    if n == 0 {
        Ok((out, p))
    } else {
        match member_head_at(b, p, version, size) { Err(e) => Err(e), Ok((head, q)) =>
            if !(p < q <= b.len()) {
                Err((ErrorView::Incomplete, q))
            } else {
                match datatype_at(b, q) { Err(e) => Err(e), Ok((base, q)) =>
                match shaped(head, base, version) { Err(e) => Err((e, q)), Ok(datatype) =>
                    if !(p < q <= b.len()) {
                        Err((ErrorView::Incomplete, q))
                    } else {
                        members_at(b, q, version, size, (n - 1) as nat,
                            out.push(MemberView { name: head.name, offset: head.offset, datatype }))
                    }
                }}
            }
        }
    }
}

/// `n` constant names, read behind those in `out`.
pub open spec fn names_at(b: Seq<u8>, p: int, version: u8, n: nat, out: Seq<Seq<char>>) -> Parse<
    Seq<Seq<char>>,
>
    decreases n,
{
    if n == 0 {
        Ok((out, p))
    } else {
        match if version >= 3 {
            cstring_at(b, p)
        } else {
            cstring_padded_at(b, p, 8)
        } {
            Err(e) => Err(e),
            Ok((name, q)) => names_at(b, q, version, (n - 1) as nat, out.push(name)),
        }
    }
}

/// `n` constant values of `size` bytes each, read behind those in `out`.
pub open spec fn values_at(b: Seq<u8>, p: int, size: u32, n: nat, out: Seq<Seq<u8>>) -> Parse<
    Seq<Seq<u8>>,
>
    decreases n,
{
    if n == 0 {
        Ok((out, p))
    } else {
        match take_at(b, p, size as int) {
            Err(e) => Err(e),
            Ok((value, q)) => values_at(b, q, size, (n - 1) as nat, out.push(value)),
        }
    }
}

/// A named-constant type: its base, then all names, then all values.
pub open spec fn enum_at(b: Seq<u8>, p: int, version: u8, bits: u32) -> Parse<ClassView>
    decreases b.len() - p, 1nat,
{
    let count = (bits & 0xFFFF) as nat;
    match datatype_at(b, p) { Err(e) => Err(e), Ok((base, p)) =>
    match names_at(b, p, version, count, Seq::empty()) { Err(e) => Err(e), Ok((names, p)) =>
    match values_at(b, p, base.size, count, Seq::empty()) { Err(e) => Err(e), Ok((values, p)) =>
        Ok((ClassView::Enum { base: Box::new(base), names, values }, p))
    }}}
}

/// Whether a variable-length type is a sequence or a string.
pub open spec fn vlen_kind(code: u32) -> std::result::Result<VlenKind, ErrorView> {
    if code == 0 {
        Ok(VlenKind::Sequence)
    } else if code == 1 {
        Ok(VlenKind::String)
    } else {
        Err(ErrorView::Malformed("variable-length datatype flavour "@ + decimal(code as nat)))
    }
}

/// A variable-length type.
pub open spec fn vlen_at(b: Seq<u8>, p: int, bits: u32) -> Parse<ClassView>
    decreases b.len() - p, 1nat,
{
    match vlen_kind(bits & 0x0F) { Err(e) => Err((e, p)), Ok(kind) =>
    match pad_of((bits >> 4) & 0x0F) { Err(e) => Err((e, p)), Ok(pad) =>
    match charset_of((bits >> 8) & 0x0F) { Err(e) => Err((e, p)), Ok(charset) =>
    match datatype_at(b, p) { Err(e) => Err(e), Ok((base, p)) =>
        Ok((ClassView::VariableLength { kind, base: Box::new(base), pad, charset }, p))
    }}}}
}

/// The rank and extents of an array type. Version 2 pads the rank and carries
/// permutation indices that were never given a meaning.
pub open spec fn array_dims_at(b: Seq<u8>, p: int, version: u8) -> Parse<Seq<u32>> {
    match u8_at(b, p) { Err(e) => Err(e), Ok((rank, p)) =>
    match skip_at(b, p, if version == 2 { 3 } else { 0 }) { Err(e) => Err(e), Ok((_, p)) =>
    match crate::message::layout::u32s_at(b, p, rank as nat, Seq::empty()) { Err(e) => Err(e), Ok((dims, p)) =>
    match skip_at(b, p, if version == 2 { rank * 4 } else { 0 }) { Err(e) => Err(e), Ok((_, p)) =>
        Ok((dims, p))
    }}}}
}

/// A fixed-shape array type.
pub open spec fn array_at(b: Seq<u8>, p: int, version: u8) -> Parse<ClassView>
    decreases b.len() - p, 1nat,
{
    match array_dims_at(b, p, version) { Err(e) => Err(e), Ok((dims, q)) =>
        if !(p < q <= b.len()) {
            Err((ErrorView::Incomplete, q))
        } else {
            match datatype_at(b, q) { Err(e) => Err(e), Ok((base, q)) =>
                Ok((ClassView::Array { dims, base: Box::new(base) }, q)) }
        }
    }
}

/// The class-specific part of a datatype, by its class code. Class 2 is Time
/// and class 4 is Bit field; neither appears in netCDF-4 output.
pub open spec fn class_at(b: Seq<u8>, p: int, version: u8, code: u8, bits: u32, size: u32) -> Parse<
    ClassView,
>
    decreases b.len() - p, 2nat,
{
    if code == 0 {
        fixed_point_at(b, p, bits)
    } else if code == 1 {
        floating_point_at(b, p, bits)
    } else if code == 3 {
        match string_class(bits) { Err(e) => Err((e, p)), Ok(class) => Ok((class, p)) }
    } else if code == 5 {
        opaque_at(b, p, bits)
    } else if code == 6 {
        match members_at(b, p, version, size, (bits & 0xFFFF) as nat, Seq::empty()) {
            Err(e) => Err(e),
            Ok((members, q)) => Ok((ClassView::Compound { members }, q)),
        }
    } else if code == 7 {
        Ok((ClassView::Reference { kind: (bits & 0x0F) as u8 }, p))
    } else if code == 8 {
        enum_at(b, p, version, bits)
    } else if code == 9 {
        vlen_at(b, p, bits)
    } else if code == 10 {
        array_at(b, p, version)
    } else {
        Ok((ClassView::Unsupported { class: code }, p))
    }
}

/// The datatype at `p`: a byte of version and class, three bytes of bit field,
/// the element size, and then what the class asks for.
pub open spec fn datatype_at(b: Seq<u8>, p: int) -> Parse<DatatypeView>
    decreases b.len() - p, 0nat,
{
    match u8_at(b, p) { Err(e) => Err(e), Ok((first, p1)) => {
        let version = first >> 4;
        if version == 0 || version > 4 {
            Err((ErrorView::Malformed("datatype message version "@ + decimal(version as nat)), p1))
        } else {
            match u8_at(b, p1) { Err(e) => Err(e), Ok((bits0, p2)) =>
            match u8_at(b, p2) { Err(e) => Err(e), Ok((bits1, p3)) =>
            match u8_at(b, p3) { Err(e) => Err(e), Ok((bits2, p4)) =>
            match u32_at(b, p4) { Err(e) => Err(e), Ok((size, p5)) => {
                let bits = (bits0 + 0x100 * bits1 + 0x1_0000 * bits2) as u32;
                match class_at(b, p5, version, first & 0x0F, bits, size) { Err(e) => Err(e), Ok((class, q)) =>
                    Ok((DatatypeView { version, size, class }, q)) }
            }}}}}
        }
    }}
}

/// What was read of a compound member before its type.
struct MemberStart {
    name: String,
    offset: u64,
    rank: u8,
    dims: Vec<u32>,
}

impl View for MemberStart {
    type V = MemberHead;

    closed spec fn view(&self) -> MemberHead {
        MemberHead { name: self.name@, offset: self.offset, rank: self.rank, dims: self.dims@ }
    }
}

impl Datatype {
    /// Parse a datatype message body.
    pub fn parse(data: &[u8]) -> (r: Result<Self>)
        ensures
            seen(r) == value_of(datatype_at(data@, 0)),
    {
        let mut cur = Cursor::new(data);
        Self::parse_at(&mut cur)
    }

    /// Parse a datatype at the cursor, leaving it just past the datatype.
    ///
    /// Nested types (compound members, array and vlen bases) are encoded inline,
    /// so parsing has to be resumable rather than whole-buffer.
    pub fn parse_at(cur: &mut Cursor<'_>) -> (r: Result<Self>)
        ensures
            final(cur).moved(
                *old(cur),
                seen(r),
                datatype_at(old(cur).buf@, old(cur).pos as int),
            ),
            r is Ok ==> old(cur).pos + 8 <= final(cur).pos <= old(cur).buf@.len(),
        decreases old(cur).buf@.len() - old(cur).pos, 0nat,
    {
        let class_and_version: u8 = cur.u8()?;
        let version: u8 = class_and_version >> 4;
        let class_code: u8 = class_and_version & 0x0F;

        if version == 0 || version > 4 {
            return Err(Error::Malformed(numbered("datatype message version ", version as u64)));
        }
        let bits0: u32 = cur.u8()? as u32;
        let bits1: u32 = cur.u8()? as u32;
        let bits2: u32 = cur.u8()? as u32;
        let bitfield: u32 = bits0 + 0x100 * bits1 + 0x1_0000 * bits2;
        let size: u32 = cur.u32()?;

        let class = Self::parse_class(cur, version, class_code, bitfield, size)?;
        Ok(Datatype { version, size, class })
    }

    fn parse_class(
        cur: &mut Cursor<'_>,
        version: u8,
        class_code: u8,
        bitfield: u32,
        size: u32,
    ) -> (r: Result<DatatypeClass>)
        requires
            old(cur).pos <= old(cur).buf@.len(),
        ensures
            final(cur).moved(
                *old(cur),
                seen(r),
                class_at(old(cur).buf@, old(cur).pos as int, version, class_code, bitfield, size),
            ),
            r is Ok ==> old(cur).pos <= final(cur).pos <= old(cur).buf@.len(),
        decreases old(cur).buf@.len() - old(cur).pos, 2nat,
    {
        match class_code {
            0 => Self::parse_fixed_point(cur, bitfield),
            1 => Self::parse_floating_point(cur, bitfield),
            3 => Self::parse_string(bitfield),
            5 => Self::parse_opaque(cur, bitfield),
            6 => Self::parse_compound(cur, version, bitfield, size),
            7 => Ok(DatatypeClass::Reference { kind: (bitfield & 0x0F) as u8 }),
            8 => Self::parse_enum(cur, version, bitfield),
            9 => Self::parse_vlen(cur, bitfield),
            10 => Self::parse_array(cur, version),
            // Class 2 is Time and class 4 is Bit field. Neither appears in
            // netCDF-4 output, and guessing at their semantics would be worse
            // than saying so.
            other => Ok(DatatypeClass::Unsupported { class: other }),
        }
    }

    fn parse_fixed_point(cur: &mut Cursor<'_>, bitfield: u32) -> (r: Result<DatatypeClass>)
        ensures
            final(cur).moved(
                *old(cur),
                seen(r),
                fixed_point_at(old(cur).buf@, old(cur).pos as int, bitfield),
            ),
            r is Ok ==> old(cur).pos <= final(cur).pos <= old(cur).buf@.len(),
    {
        let order = if bitfield & 0x01 == 0 {
            ByteOrder::Little
        } else {
            ByteOrder::Big
        };
        let signed: bool = bitfield & 0x08 != 0;
        let bit_offset: u16 = cur.u16()?;
        let bit_precision: u16 = cur.u16()?;
        Ok(DatatypeClass::FixedPoint { order, signed, bit_offset, bit_precision })
    }

    fn parse_floating_point(cur: &mut Cursor<'_>, bitfield: u32) -> (r: Result<DatatypeClass>)
        ensures
            final(cur).moved(
                *old(cur),
                seen(r),
                floating_point_at(old(cur).buf@, old(cur).pos as int, bitfield),
            ),
            r is Ok ==> old(cur).pos <= final(cur).pos <= old(cur).buf@.len(),
    {
        // Bit 0 is the low bit of the byte order and bit 6 is the high bit.
        // The pair (1,1) means VAX-order floats, which this reader rejects
        // rather than silently mis-decoding.
        let low: bool = bitfield & 0x01 != 0;
        let high: bool = bitfield & 0x40 != 0;
        if high {
            return Err(Error::unsupported("VAX-order floating point (mixed-endian)"));
        }
        let order = if low {
            ByteOrder::Big
        } else {
            ByteOrder::Little
        };
        let sign_location: u8 = ((bitfield >> 8) & 0xFF) as u8;

        let bit_offset: u16 = cur.u16()?;
        let bit_precision: u16 = cur.u16()?;
        let exponent_location: u8 = cur.u8()?;
        let exponent_size: u8 = cur.u8()?;
        let mantissa_location: u8 = cur.u8()?;
        let mantissa_size: u8 = cur.u8()?;
        let exponent_bias: u32 = cur.u32()?;

        Ok(
            DatatypeClass::FloatingPoint {
                order,
                bit_offset,
                bit_precision,
                exponent_location,
                exponent_size,
                mantissa_location,
                mantissa_size,
                exponent_bias,
                sign_location,
            },
        )
    }

    fn parse_string(bitfield: u32) -> (r: Result<DatatypeClass>)
        ensures
            seen(r) == string_class(bitfield),
    {
        Ok(
            DatatypeClass::String {
                pad: string_pad(bitfield & 0x0F)?,
                charset: char_set((bitfield >> 4) & 0x0F)?,
            },
        )
    }

    fn parse_opaque(cur: &mut Cursor<'_>, bitfield: u32) -> (r: Result<DatatypeClass>)
        ensures
            final(cur).moved(
                *old(cur),
                seen(r),
                opaque_at(old(cur).buf@, old(cur).pos as int, bitfield),
            ),
            r is Ok ==> old(cur).pos <= final(cur).pos <= old(cur).buf@.len(),
    {
        // The low byte of the bit field is the tag length, padded to 8 bytes.
        let tag_len: usize = (bitfield & 0xFF) as usize;
        Ok(DatatypeClass::Opaque { tag: cur.fixed_string(tag_len)? })
    }

    fn parse_compound(cur: &mut Cursor<'_>, version: u8, bitfield: u32, size: u32) -> (r: Result<
        DatatypeClass,
    >)
        requires
            old(cur).pos <= old(cur).buf@.len(),
        ensures
            final(cur).moved(
                *old(cur),
                seen(r),
                class_at(old(cur).buf@, old(cur).pos as int, version, 6, bitfield, size),
            ),
            r is Ok ==> old(cur).pos <= final(cur).pos <= old(cur).buf@.len(),
        decreases old(cur).buf@.len() - old(cur).pos, 1nat,
    {
        let count: u32 = bitfield & 0xFFFF;
        let mut members: Vec<CompoundMember> = Vec::new();
        let mut left: u32 = count;
        let ghost b = cur.buf@;
        let ghost want = members_at(
            b,
            cur.pos as int,
            version,
            size,
            count as nat,
            Seq::empty(),
        );
        while left > 0
            invariant
                cur.buf == old(cur).buf,
                b == cur.buf@,
                old(cur).pos <= cur.pos <= b.len(),
                want == members_at(
                    b,
                    old(cur).pos as int,
                    version,
                    size,
                    count as nat,
                    Seq::empty(),
                ),
                count == bitfield & 0xFFFF,
                want == members_at(
                    b,
                    cur.pos as int,
                    version,
                    size,
                    left as nat,
                    views(members@),
                ),
            decreases left,
        {
            let head = Self::parse_member_start(cur, version, size)?;
            let base = Self::parse_at(cur)?;
            let ghost start = head@;
            let MemberStart { name, offset, rank, dims } = head;
            let datatype = Self::shape_member(rank, dims, base, version, Ghost(start))?;
            members.push(CompoundMember { name, offset, datatype });
            left = left - 1;
        }
        proof {
            lemma_compound_view(members);
        }
        Ok(DatatypeClass::Compound { members })
    }

    /// Read the name, the offset and the inline array shape of a member.
    fn parse_member_start(cur: &mut Cursor<'_>, version: u8, size: u32) -> (r: Result<MemberStart>)
        ensures
            final(cur).moved(
                *old(cur),
                seen(r),
                member_head_at(old(cur).buf@, old(cur).pos as int, version, size),
            ),
            r is Ok ==> old(cur).pos < final(cur).pos <= old(cur).buf@.len(),
    {
        match version {
            1 => {
                let name = cur.cstring_padded(8)?;
                let offset: u64 = cur.u32()? as u64;
                let rank: u8 = cur.u8()?;
                cur.skip(3)?;  // reserved
                cur.skip(4)?;  // dimension permutation
                cur.skip(4)?;  // reserved
                let d0: u32 = cur.u32()?;
                let d1: u32 = cur.u32()?;
                let d2: u32 = cur.u32()?;
                let d3: u32 = cur.u32()?;
                let dims: Vec<u32> = vec![d0, d1, d2, d3];
                assert(dims@ =~= seq![d0, d1, d2, d3]);
                Ok(MemberStart { name, offset, rank, dims })
            },
            2 => {
                let name = cur.cstring_padded(8)?;
                let offset: u64 = cur.u32()? as u64;
                Ok(MemberStart { name, offset, rank: 0, dims: Vec::new() })
            },
            3 | 4 => {
                let name = cur.cstring()?;
                // The offset field is only as wide as the compound's own
                // size needs, which the writer minimises.
                let offset: u64 = cur.uint(compound_offset_width(size))?;
                Ok(MemberStart { name, offset, rank: 0, dims: Vec::new() })
            },
            other => Err(Error::Unsupported(numbered("compound datatype version ", other as u64))),
        }
    }

    /// Wrap a member's type in the inline array shape that version 1 records. A
    /// rank of zero means the member is a plain scalar of `base`.
    fn shape_member(
        rank: u8,
        dims: Vec<u32>,
        base: Datatype,
        version: u8,
        Ghost(head): Ghost<MemberHead>,
    ) -> (r: Result<Datatype>)
        requires
            head.rank == rank,
            head.dims == dims@,
        ensures
            seen(r) == shaped(head, base@, version),
    {
        if rank == 0 {
            return Ok(base);
        }
        if rank as usize > dims.len() {
            return Err(
                Error::Malformed(
                    numbered("compound member declares an array of rank ", rank as u64),
                ),
            );
        }
        let mut shape = dims;
        shape.truncate(rank as usize);
        let mut extents: Vec<u64> = Vec::new();
        let mut i: usize = 0;
        while i < shape.len()
            invariant
                i <= shape@.len(),
                extents@ == widened(shape@).take(i as int),
            decreases shape@.len() - i,
        {
            extents.push(shape[i] as u64);
            i = i + 1;
            assert(extents@ =~= widened(shape@).take(i as int));
        }
        extents.push(base.size as u64);
        assert(shape@ =~= head.dims.take(rank as int));
        assert(extents@ =~= widened(shape@).push(base.size as u64));
        match checked_product(extents.as_slice()) {
            Some(size) if size <= u32::MAX as u64 => Ok(
                Datatype {
                    version,
                    size: size as u32,
                    class: DatatypeClass::Array { dims: shape, base: Box::new(base) },
                },
            ),
            _ => Err(Error::malformed("compound member array size does not fit in 32 bits")),
        }
    }

    fn parse_enum(cur: &mut Cursor<'_>, version: u8, bitfield: u32) -> (r: Result<DatatypeClass>)
        requires
            old(cur).pos <= old(cur).buf@.len(),
        ensures
            final(cur).moved(
                *old(cur),
                seen(r),
                enum_at(old(cur).buf@, old(cur).pos as int, version, bitfield),
            ),
            r is Ok ==> old(cur).pos <= final(cur).pos <= old(cur).buf@.len(),
        decreases old(cur).buf@.len() - old(cur).pos, 1nat,
    {
        let count: u32 = bitfield & 0xFFFF;
        let base = Self::parse_at(cur)?;
        let names = read_names(cur, version, count)?;
        let values = read_values(cur, base.size, count)?;
        Ok(DatatypeClass::Enum { base: Box::new(base), names, values })
    }

    fn parse_vlen(cur: &mut Cursor<'_>, bitfield: u32) -> (r: Result<DatatypeClass>)
        requires
            old(cur).pos <= old(cur).buf@.len(),
        ensures
            final(cur).moved(
                *old(cur),
                seen(r),
                vlen_at(old(cur).buf@, old(cur).pos as int, bitfield),
            ),
            r is Ok ==> old(cur).pos <= final(cur).pos <= old(cur).buf@.len(),
        decreases old(cur).buf@.len() - old(cur).pos, 1nat,
    {
        let kind = match bitfield & 0x0F {
            0 => VlenKind::Sequence,
            1 => VlenKind::String,
            other => {
                return Err(
                    Error::Malformed(numbered("variable-length datatype flavour ", other as u64)),
                );
            },
        };
        let pad = string_pad((bitfield >> 4) & 0x0F)?;
        let charset = char_set((bitfield >> 8) & 0x0F)?;
        let base = Self::parse_at(cur)?;
        Ok(DatatypeClass::VariableLength { kind, base: Box::new(base), pad, charset })
    }

    fn parse_array(cur: &mut Cursor<'_>, version: u8) -> (r: Result<DatatypeClass>)
        requires
            old(cur).pos <= old(cur).buf@.len(),
        ensures
            final(cur).moved(
                *old(cur),
                seen(r),
                array_at(old(cur).buf@, old(cur).pos as int, version),
            ),
            r is Ok ==> old(cur).pos <= final(cur).pos <= old(cur).buf@.len(),
        decreases old(cur).buf@.len() - old(cur).pos, 1nat,
    {
        let dims = read_array_dims(cur, version)?;
        let base = Self::parse_at(cur)?;
        Ok(DatatypeClass::Array { dims, base: Box::new(base) })
    }

    /// Byte order, for the classes that have one.
    pub fn byte_order(&self) -> (r: Option<ByteOrder>)
        ensures
            r == match self@.class {
                ClassView::FixedPoint { order, .. } => Some(order),
                ClassView::FloatingPoint { order, .. } => Some(order),
                _ => None,
            },
    {
        match &self.class {
            DatatypeClass::FixedPoint { order, .. } => Some(*order),
            DatatypeClass::FloatingPoint { order, .. } => Some(*order),
            _ => None,
        }
    }

    /// Whether values of this type can be decoded by this reader.
    pub fn is_decodable(&self) -> (r: bool)
        ensures
            r == decodable(self@),
        decreases *self,
    {
        match &self.class {
            DatatypeClass::FixedPoint { .. } => true,
            DatatypeClass::FloatingPoint { .. } => true,
            DatatypeClass::String { .. } => true,
            DatatypeClass::Reference { .. } => true,
            DatatypeClass::Enum { .. } => true,
            DatatypeClass::VariableLength { .. } => true,
            DatatypeClass::Opaque { .. } => true,
            DatatypeClass::Array { base, .. } => base.is_decodable(),
            DatatypeClass::Compound { members } => {
                proof {
                    lemma_compound_view(*members);
                }
                let mut i: usize = 0;
                while i < members.len()
                    invariant
                        i <= members@.len(),
                        self.class == (DatatypeClass::Compound { members: *members }),
                        self@.class == (ClassView::Compound { members: views(members@) }),
                        forall|j: int| 0 <= j < i ==> decodable(#[trigger] views(members@)[j].datatype),
                    decreases members@.len() - i,
                {
                    proof {
                        assert(decreases_to!(self.class => *members));
                        assert(decreases_to!(*members => members@));
                        assert(decreases_to!(members@ => members@[i as int]));
                    }
                    if !members[i].datatype.is_decodable() {
                        assert(!decodable(views(members@)[i as int].datatype));
                        return false;
                    }
                    i = i + 1;
                }
                true
            },
            DatatypeClass::Unsupported { .. } => false,
        }
    }
}

/// Values of this type can be decoded: every class but the unknown ones, where
/// an array goes by its base and a compound by all of its members.
pub open spec fn decodable(d: DatatypeView) -> bool
    decreases d,
{
    match d.class {
        ClassView::Array { base, .. } => decodable(*base),
        ClassView::Compound { members } => forall|i: int|
            0 <= i < members.len() ==> decodable(#[trigger] members[i].datatype),
        ClassView::Unsupported { .. } => false,
        _ => true,
    }
}

/// Width of the member-offset field in a version 3 or 4 compound datatype.
///
/// The writer minimises it against the compound's own size, using
/// `(floor(log2(size)) + 7) / 8` bytes. Deriving it from anything else (the
/// enclosing buffer, say) desynchronises the parse of every later member.
pub fn compound_offset_width(size: u32) -> (r: u8)
    ensures
        r == offset_width(size),
{
    if size < 0x200 {
        1
    } else if size < 0x2_0000 {
        2
    } else if size < 0x200_0000 {
        3
    } else {
        4
    }
}

fn string_pad(code: u32) -> (r: Result<StringPad>)
    ensures
        (match r {
            Ok(v) => Ok(v),
            Err(e) => Err(e@),
        }) == pad_of(code),
{
    match code {
        0 => Ok(StringPad::NullTerminate),
        1 => Ok(StringPad::NullPad),
        2 => Ok(StringPad::SpacePad),
        other => Err(Error::Malformed(numbered("string padding code ", other as u64))),
    }
}

fn char_set(code: u32) -> (r: Result<CharSet>)
    ensures
        (match r {
            Ok(v) => Ok(v),
            Err(e) => Err(e@),
        }) == charset_of(code),
{
    match code {
        0 => Ok(CharSet::Ascii),
        1 => Ok(CharSet::Utf8),
        other => Err(Error::Unsupported(numbered("character set code ", other as u64))),
    }
}

fn read_names(cur: &mut Cursor<'_>, version: u8, count: u32) -> (r: Result<Vec<String>>)
    requires
        old(cur).pos <= old(cur).buf@.len(),
    ensures
        final(cur).moved(
            *old(cur),
            match r {
                Ok(v) => Ok(views(v@)),
                Err(e) => Err(e@),
            },
            names_at(old(cur).buf@, old(cur).pos as int, version, count as nat, Seq::empty()),
        ),
        r is Ok ==> old(cur).pos <= final(cur).pos <= old(cur).buf@.len(),
{
    let mut out: Vec<String> = Vec::new();
    let mut left: u32 = count;
    while left > 0
        invariant
            cur.buf == old(cur).buf,
            old(cur).pos <= cur.pos <= cur.buf@.len(),
            names_at(old(cur).buf@, old(cur).pos as int, version, count as nat, Seq::empty())
                == names_at(cur.buf@, cur.pos as int, version, left as nat, views(out@)),
        decreases left,
    {
        let name = if version >= 3 {
            cur.cstring()?
        } else {
            cur.cstring_padded(8)?
        };
        out.push(name);
        left = left - 1;
    }
    Ok(out)
}

fn read_values(cur: &mut Cursor<'_>, size: u32, count: u32) -> (r: Result<Vec<Vec<u8>>>)
    requires
        old(cur).pos <= old(cur).buf@.len(),
    ensures
        final(cur).moved(
            *old(cur),
            match r {
                Ok(v) => Ok(views(v@)),
                Err(e) => Err(e@),
            },
            values_at(old(cur).buf@, old(cur).pos as int, size, count as nat, Seq::empty()),
        ),
        r is Ok ==> old(cur).pos <= final(cur).pos <= old(cur).buf@.len(),
{
    let mut out: Vec<Vec<u8>> = Vec::new();
    let mut left: u32 = count;
    while left > 0
        invariant
            cur.buf == old(cur).buf,
            old(cur).pos <= cur.pos <= cur.buf@.len(),
            values_at(old(cur).buf@, old(cur).pos as int, size, count as nat, Seq::empty())
                == values_at(cur.buf@, cur.pos as int, size, left as nat, views(out@)),
        decreases left,
    {
        let value = slice_to_vec(cur.take(size as usize)?);
        out.push(value);
        left = left - 1;
    }
    Ok(out)
}

fn read_array_dims(cur: &mut Cursor<'_>, version: u8) -> (r: Result<Vec<u32>>)
    ensures
        final(cur).moved(
            *old(cur),
            seen(r),
            array_dims_at(old(cur).buf@, old(cur).pos as int, version),
        ),
        r is Ok ==> old(cur).pos < final(cur).pos <= old(cur).buf@.len(),
{
    let rank: u8 = cur.u8()?;
    if version == 2 {
        cur.skip(3)?;  // reserved
    }
    let dims = crate::message::layout::read_u32s(cur, rank)?;
    if version == 2 {
        // Permutation indices, never meaningfully used.
        cur.skip(rank as usize * 4)?;
    }
    Ok(dims)
}

// ── a datatype and the bytes it takes ──────────────────────────────────────

broadcast proof fn lemma_subrange_of_subrange(b: Seq<u8>, s: int, e: int, i: int, j: int)
    requires
        0 <= s,
        0 <= i <= j <= e - s,
        e <= b.len(),
    ensures
        #[trigger] b.subrange(s, e).subrange(i, j) == b.subrange(s + i, s + j),
{
}

proof fn lemma_zero_cut(b: Seq<u8>, s: int, e: int, p: int)
    requires
        0 <= s <= p,
        e <= b.len(),
        first_zero(b, p) < e,
    ensures
        p <= first_zero(b, p),
        first_zero(b.subrange(s, e), p - s) == first_zero(b, p) - s,
    decreases b.len() - p,
{
    if p < b.len() && b[p] != 0 {
        lemma_zero_cut(b, s, e, p + 1);
    }
}

/// A parse of `b` at `p` ends inside `b`. Where it ends at or before `e`, a parse of
/// the bytes from `s` to `e` repeats it.
spec fn repeated<T>(b: Seq<u8>, whole: Parse<T>, part: Parse<T>, s: int, e: int, p: int) -> bool {
    whole matches Ok((v, q)) ==> p <= q <= b.len() && (q <= e ==> part == Parse::<T>::Ok(
        (v, q - s),
    ))
}

proof fn lemma_text_cut(b: Seq<u8>, s: int, e: int, p: int)
    requires
        0 <= s <= p <= b.len(),
        s <= e <= b.len(),
    ensures
        repeated(b, cstring_at(b, p), cstring_at(b.subrange(s, e), p - s), s, e, p),
        repeated(
            b,
            cstring_padded_at(b, p, 8),
            cstring_padded_at(b.subrange(s, e), p - s, 8),
            s,
            e,
            p,
        ),
{
    broadcast use lemma_subrange_of_subrange;

    lemma_first_zero(b, p);
    if first_zero(b, p) < e {
        lemma_zero_cut(b, s, e, p);
    }
}

proof fn lemma_head_cut(b: Seq<u8>, s: int, e: int, p: int, version: u8, size: u32)
    requires
        0 <= s <= p <= b.len(),
        s <= e <= b.len(),
    ensures
        repeated(
            b,
            member_head_at(b, p, version, size),
            member_head_at(b.subrange(s, e), p - s, version, size),
            s,
            e,
            p,
        ),
{
    broadcast use lemma_subrange_of_subrange;

    lemma_text_cut(b, s, e, p);
}

proof fn lemma_names_cut(
    b: Seq<u8>,
    s: int,
    e: int,
    p: int,
    version: u8,
    n: nat,
    out: Seq<Seq<char>>,
)
    requires
        0 <= s <= p <= b.len(),
        s <= e <= b.len(),
    ensures
        repeated(
            b,
            names_at(b, p, version, n, out),
            names_at(b.subrange(s, e), p - s, version, n, out),
            s,
            e,
            p,
        ),
    decreases n,
{
    if n > 0 {
        lemma_text_cut(b, s, e, p);
        match if version >= 3 {
            cstring_at(b, p)
        } else {
            cstring_padded_at(b, p, 8)
        } {
            Err(_) => {},
            Ok((name, q)) => {
                lemma_names_cut(b, s, e, q, version, (n - 1) as nat, out.push(name));
            },
        }
    }
}

proof fn lemma_values_cut(
    b: Seq<u8>,
    s: int,
    e: int,
    p: int,
    size: u32,
    n: nat,
    out: Seq<Seq<u8>>,
)
    requires
        0 <= s <= p <= b.len(),
        s <= e <= b.len(),
    ensures
        repeated(
            b,
            values_at(b, p, size, n, out),
            values_at(b.subrange(s, e), p - s, size, n, out),
            s,
            e,
            p,
        ),
    decreases n,
{
    broadcast use lemma_subrange_of_subrange;

    if n > 0 {
        match take_at(b, p, size as int) {
            Err(_) => {},
            Ok((value, q)) => {
                lemma_values_cut(b, s, e, q, size, (n - 1) as nat, out.push(value));
            },
        }
    }
}

proof fn lemma_extents_cut(b: Seq<u8>, s: int, e: int, p: int, n: nat, out: Seq<u32>)
    requires
        0 <= s <= p <= b.len(),
        s <= e <= b.len(),
    ensures
        repeated(
            b,
            crate::message::layout::u32s_at(b, p, n, out),
            crate::message::layout::u32s_at(b.subrange(s, e), p - s, n, out),
            s,
            e,
            p,
        ),
    decreases n,
{
    broadcast use lemma_subrange_of_subrange;

    if n > 0 {
        match u32_at(b, p) {
            Err(_) => {},
            Ok((d, q)) => {
                lemma_extents_cut(b, s, e, q, (n - 1) as nat, out.push(d));
            },
        }
    }
}

proof fn lemma_array_dims_cut(b: Seq<u8>, s: int, e: int, p: int, version: u8)
    requires
        0 <= s <= p <= b.len(),
        s <= e <= b.len(),
    ensures
        repeated(
            b,
            array_dims_at(b, p, version),
            array_dims_at(b.subrange(s, e), p - s, version),
            s,
            e,
            p,
        ),
{
    broadcast use lemma_subrange_of_subrange;

    match u8_at(b, p) {
        Err(_) => {},
        Ok((rank, p1)) => {
            let p2: int = p1 + if version == 2 {
                3int
            } else {
                0
            };
            if p2 <= b.len() {
                lemma_extents_cut(b, s, e, p2, rank as nat, Seq::empty());
            }
        },
    }
}

proof fn lemma_members_cut(
    b: Seq<u8>,
    s: int,
    e: int,
    p: int,
    version: u8,
    size: u32,
    n: nat,
    out: Seq<MemberView>,
)
    requires
        0 <= s <= p <= b.len(),
        s <= e <= b.len(),
    ensures
        repeated(
            b,
            members_at(b, p, version, size, n, out),
            members_at(b.subrange(s, e), p - s, version, size, n, out),
            s,
            e,
            p,
        ),
    decreases b.len() - p, 1nat,
{
    if n > 0 {
        lemma_head_cut(b, s, e, p, version, size);
        match member_head_at(b, p, version, size) {
            Err(_) => {},
            Ok((head, q)) => if p < q <= b.len() {
                lemma_datatype_cut(b, s, e, q);
                match datatype_at(b, q) {
                    Err(_) => {},
                    Ok((base, r)) => match shaped(head, base, version) {
                        Err(_) => {},
                        Ok(datatype) => if p < r <= b.len() {
                            lemma_members_cut(
                                b,
                                s,
                                e,
                                r,
                                version,
                                size,
                                (n - 1) as nat,
                                out.push(
                                    MemberView { name: head.name, offset: head.offset, datatype },
                                ),
                            );
                        },
                    },
                }
            },
        }
    }
}

proof fn lemma_flat_cut(b: Seq<u8>, s: int, e: int, p: int, bits: u32)
    requires
        0 <= s <= p <= b.len(),
        s <= e <= b.len(),
    ensures
        repeated(
            b,
            fixed_point_at(b, p, bits),
            fixed_point_at(b.subrange(s, e), p - s, bits),
            s,
            e,
            p,
        ),
        repeated(
            b,
            floating_point_at(b, p, bits),
            floating_point_at(b.subrange(s, e), p - s, bits),
            s,
            e,
            p,
        ),
        repeated(
            b,
            opaque_at(b, p, bits),
            opaque_at(b.subrange(s, e), p - s, bits),
            s,
            e,
            p,
        ),
{
    broadcast use lemma_subrange_of_subrange;

}

proof fn lemma_enum_cut(b: Seq<u8>, s: int, e: int, p: int, version: u8, bits: u32)
    requires
        0 <= s <= p <= b.len(),
        s <= e <= b.len(),
    ensures
        repeated(
            b,
            enum_at(b, p, version, bits),
            enum_at(b.subrange(s, e), p - s, version, bits),
            s,
            e,
            p,
        ),
    decreases b.len() - p, 1nat,
{
    lemma_datatype_cut(b, s, e, p);
    let count = (bits & 0xFFFF) as nat;
    match datatype_at(b, p) {
        Err(_) => {},
        Ok((base, q)) => {
            lemma_names_cut(b, s, e, q, version, count, Seq::empty());
            match names_at(b, q, version, count, Seq::empty()) {
                Err(_) => {},
                Ok((_, r)) => lemma_values_cut(b, s, e, r, base.size, count, Seq::empty()),
            }
        },
    }
}

proof fn lemma_array_cut(b: Seq<u8>, s: int, e: int, p: int, version: u8)
    requires
        0 <= s <= p <= b.len(),
        s <= e <= b.len(),
    ensures
        repeated(b, array_at(b, p, version), array_at(b.subrange(s, e), p - s, version), s, e, p),
    decreases b.len() - p, 1nat,
{
    lemma_array_dims_cut(b, s, e, p, version);
    match array_dims_at(b, p, version) {
        Err(_) => {},
        Ok((_, q)) => if p < q <= b.len() {
            lemma_datatype_cut(b, s, e, q);
        },
    }
}

proof fn lemma_class_cut(
    b: Seq<u8>,
    s: int,
    e: int,
    p: int,
    version: u8,
    code: u8,
    bits: u32,
    size: u32,
)
    requires
        0 <= s <= p <= b.len(),
        s <= e <= b.len(),
    ensures
        repeated(
            b,
            class_at(b, p, version, code, bits, size),
            class_at(b.subrange(s, e), p - s, version, code, bits, size),
            s,
            e,
            p,
        ),
    decreases b.len() - p, 2nat,
{
    lemma_flat_cut(b, s, e, p, bits);
    if code == 6 {
        lemma_members_cut(b, s, e, p, version, size, (bits & 0xFFFF) as nat, Seq::empty());
    } else if code == 8 {
        lemma_enum_cut(b, s, e, p, version, bits);
    } else if code == 9 {
        lemma_datatype_cut(b, s, e, p);
    } else if code == 10 {
        lemma_array_cut(b, s, e, p, version);
    }
}

/// The version of the datatype at `p`, its bit field and its element size.
spec fn start_at(b: Seq<u8>, p: int) -> (u8, u32, u32) {
    (
        b[p] >> 4,
        (b[p + 1] + 0x100 * b[p + 2] + 0x1_0000 * b[p + 3]) as u32,
        u32_in(b, p + 4),
    )
}

/// A datatype whose class-specific part is `class`.
spec fn datatype_over(start: (u8, u32, u32), class: Parse<ClassView>) -> Parse<DatatypeView> {
    match class {
        Err(e) => Err(e),
        Ok((class, q)) => Ok((DatatypeView { version: start.0, size: start.2, class }, q)),
    }
}

proof fn lemma_start_of_datatype(b: Seq<u8>, p: int)
    requires
        0 <= p,
    ensures
        p + 8 > b.len() ==> datatype_at(b, p) is Err,
        p + 8 <= b.len() ==> {
            let start = start_at(b, p);
            if start.0 == 0 || start.0 > 4 {
                datatype_at(b, p) is Err
            } else {
                datatype_at(b, p) == datatype_over(
                    start,
                    class_at(b, p + 8, start.0, b[p] & 0x0F, start.1, start.2),
                )
            }
        },
{
    if p + 8 <= b.len() {
        assert(u8_at(b, p) == Parse::<u8>::Ok((b[p], p + 1)));
        assert(u8_at(b, p + 1) == Parse::<u8>::Ok((b[p + 1], p + 2)));
        assert(u8_at(b, p + 2) == Parse::<u8>::Ok((b[p + 2], p + 3)));
        assert(u8_at(b, p + 3) == Parse::<u8>::Ok((b[p + 3], p + 4)));
        assert(u32_at(b, p + 4) == Parse::<u32>::Ok((u32_in(b, p + 4), p + 8)));
    } else {
        assert(u32_at(b, p + 4) is Err);
    }
}

proof fn lemma_start_cut(b: Seq<u8>, s: int, e: int, p: int)
    requires
        0 <= s <= p,
        p + 8 <= e <= b.len(),
    ensures
        start_at(b.subrange(s, e), p - s) == start_at(b, p),
        b.subrange(s, e)[p - s] == b[p],
{
    lemma_subrange_of_subrange(b, s, e, p - s + 4, p - s + 8);
}

proof fn lemma_over_cut(
    b: Seq<u8>,
    start: (u8, u32, u32),
    whole: Parse<ClassView>,
    part: Parse<ClassView>,
    s: int,
    e: int,
    p: int,
)
    requires
        repeated(b, whole, part, s, e, p + 8),
    ensures
        repeated(b, datatype_over(start, whole), datatype_over(start, part), s, e, p + 8),
{
}

#[verifier::spinoff_prover]
proof fn lemma_datatype_cut(b: Seq<u8>, s: int, e: int, p: int)
    requires
        0 <= s <= p <= b.len(),
        s <= e <= b.len(),
    ensures
        repeated(b, datatype_at(b, p), datatype_at(b.subrange(s, e), p - s), s, e, p),
        datatype_at(b, p) matches Ok((_, q)) ==> p + 8 <= q,
    decreases b.len() - p, 0nat,
{
    let part = b.subrange(s, e);
    lemma_start_of_datatype(b, p);
    lemma_start_of_datatype(part, p - s);
    if p + 8 <= b.len() {
        let start = start_at(b, p);
        let code = b[p] & 0x0F;
        lemma_class_cut(b, s, e, p + 8, start.0, code, start.1, start.2);
        let whole = class_at(b, p + 8, start.0, code, start.1, start.2);
        let rest = class_at(part, p + 8 - s, start.0, code, start.1, start.2);
        lemma_over_cut(b, start, whole, rest, s, e, p);
        if p + 8 <= e {
            lemma_start_cut(b, s, e, p);
        }
    }
}

/// A datatype is spelled by the bytes that reading it moves over, and by those
/// alone: the same bytes cut out of what stands around them give the same type and
/// are read to their end.
pub proof fn a_datatype_takes_its_own_bytes(b: Seq<u8>, p: int)
    requires
        0 <= p,
    ensures
        datatype_at(b, p) matches Ok((d, q)) ==> p < q <= b.len() && datatype_at(
            b.subrange(p, q),
            0,
        ) == Parse::<DatatypeView>::Ok((d, q - p)),
{
    if p <= b.len() {
        lemma_datatype_cut(b, p, b.len() as int, p);
        match datatype_at(b, p) {
            Err(_) => {},
            Ok((_, q)) => lemma_datatype_cut(b, p, q, p),
        }
    }
}

} // verus!
