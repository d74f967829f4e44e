//! The netCDF classic formats: CDF-1, CDF-2 and CDF-5.
//!
//! These formats have nothing to do with HDF5. A file holds a header of
//! dimensions, attributes and variable descriptors. The data follows at
//! computed offsets. There is no compression, no chunking and no index.
//!
//! A read is therefore parallel-safe. Once the reader parses the header, every
//! byte offset is arithmetic, so a read is one byte range.
//!
//! Two layout rules matter:
//!
//! * A fixed-size variable sits in one contiguous run, in header order.
//! * Record variables interleave. Every record variable contributes one record,
//!   in header order. The next record then follows. A record variable's
//!   elements are therefore strided. The stride is the sum of the per-record
//!   size of every record variable.
//!
//! All values are big-endian. Every field pads to a multiple of four bytes.

use std::sync::Arc;

#[allow(unused_imports)]
use vstd::arithmetic::div_mod::{lemma_fundamental_div_mod, lemma_fundamental_div_mod_converse};
use vstd::prelude::*;
use vstd::slice::{slice_subrange, slice_to_vec};

use crate::bytes::{from_be, lossy_text, reverse_elements, trimmed_len};
#[allow(unused_imports)]
use crate::bytes::{
    be_value, lemma_pow256_values, reversed_elements, utf8_lossy, without_trailing_spaces,
};
use crate::container::Container;
use crate::cursor::{position_of_zero, Cursor};
#[allow(unused_imports)]
use crate::cursor::{first_zero, lemma_first_zero, skip_at, take_at, value_of, Parse};
use crate::error::{Error, Result};
#[allow(unused_imports)]
use crate::error::{seen, ErrorView};
use crate::float::F64;
use crate::names::{find_named, Named};
#[allow(unused_imports)]
use crate::names::lookup;
use crate::message::datatype::{ByteOrder, CharSet, Datatype, DatatypeClass, StringPad};
#[allow(unused_imports)]
use crate::message::datatype::{ClassView, DatatypeView};
use crate::numbers::{to_numbers, Kind};
#[allow(unused_imports)]
use crate::numbers::numbers_of;
use crate::read::{index_of, number_of, Hyperslab};
#[allow(unused_imports)]
use crate::read::{
    checked_selections_lie_within, every_element_has_an_index, every_index_has_an_element, inside,
    integers, lemma_ravel_nonnegative, ravel, selected_index, unravel, whole_of, SlabView,
};
use crate::shape::checked_product;
#[allow(unused_imports)]
use crate::shape::{lemma_product_monotonic, product};
use crate::source::ByteSource;
#[allow(unused_imports)]
use crate::source::{agrees, Image};
use crate::text::{add_number, add_text, joined, numbered};
#[allow(unused_imports)]
use crate::text::decimal;
#[allow(unused_imports)]
use crate::views::{option_view, views};

verus! {

broadcast use crate::views::group_views;

/// Tags opening a list in the header.
pub const NC_DIMENSION: u32 = 0x0A;

pub const NC_VARIABLE: u32 = 0x0B;

pub const NC_ATTRIBUTE: u32 = 0x0C;

// ── element types ──────────────────────────────────────────────────────────

/// The element types the classic format defines.
#[derive(Debug, Clone, Copy, PartialEq, Eq, Structural)]
pub enum NcType {
    /// 8-bit signed integer.
    Byte,
    /// 8-bit character.
    Char,
    /// 16-bit signed integer.
    Short,
    /// 32-bit signed integer.
    Int,
    /// 32-bit float.
    Float,
    /// 64-bit float.
    Double,
    /// 8-bit unsigned integer. CDF-5 only.
    UByte,
    /// 16-bit unsigned integer. CDF-5 only.
    UShort,
    /// 32-bit unsigned integer. CDF-5 only.
    UInt,
    /// 64-bit signed integer. CDF-5 only.
    Int64,
    /// 64-bit unsigned integer. CDF-5 only.
    UInt64,
}

impl View for NcType {
    type V = NcType;

    open spec fn view(&self) -> NcType {
        *self
    }
}

/// The element type that a code in the file names.
pub open spec fn nc_type_of(code: u32) -> std::result::Result<NcType, ErrorView> {
    if code == 1 {
        Ok(NcType::Byte)
    } else if code == 2 {
        Ok(NcType::Char)
    } else if code == 3 {
        Ok(NcType::Short)
    } else if code == 4 {
        Ok(NcType::Int)
    } else if code == 5 {
        Ok(NcType::Float)
    } else if code == 6 {
        Ok(NcType::Double)
    } else if code == 7 {
        Ok(NcType::UByte)
    } else if code == 8 {
        Ok(NcType::UShort)
    } else if code == 9 {
        Ok(NcType::UInt)
    } else if code == 10 {
        Ok(NcType::Int64)
    } else if code == 11 {
        Ok(NcType::UInt64)
    } else {
        Err(ErrorView::Malformed("classic type code "@ + decimal(code as nat)))
    }
}

/// Width of one element in bytes.
pub open spec fn width_of(t: NcType) -> nat {
    match t {
        NcType::Byte => 1,
        NcType::Char => 1,
        NcType::UByte => 1,
        NcType::Short => 2,
        NcType::UShort => 2,
        NcType::Int => 4,
        NcType::UInt => 4,
        NcType::Float => 4,
        NcType::Double => 8,
        NcType::Int64 => 8,
        NcType::UInt64 => 8,
    }
}

/// The description of an element in the vocabulary that HDF5 files use.
///
/// netCDF `char` is a one-byte string, exactly as netcdf-c writes it into
/// HDF5. The last dimension carries the string length. Numbers are big-endian
/// and fill the whole element; floats are IEEE.
pub open spec fn datatype_of(t: NcType) -> DatatypeView {
    let bits = (width_of(t) * 8) as u16;
    let class = match t {
        NcType::Char => ClassView::String {
            pad: StringPad::NullTerminate,
            charset: CharSet::Ascii,
        },
        NcType::Float => ClassView::FloatingPoint {
            order: ByteOrder::Big,
            bit_offset: 0,
            bit_precision: bits,
            exponent_location: 23,
            exponent_size: 8,
            mantissa_location: 0,
            mantissa_size: 23,
            exponent_bias: 127,
            sign_location: 31,
        },
        NcType::Double => ClassView::FloatingPoint {
            order: ByteOrder::Big,
            bit_offset: 0,
            bit_precision: bits,
            exponent_location: 52,
            exponent_size: 11,
            mantissa_location: 0,
            mantissa_size: 52,
            exponent_bias: 1023,
            sign_location: 63,
        },
        _ => ClassView::FixedPoint {
            order: ByteOrder::Big,
            signed: t is Byte || t is Short || t is Int || t is Int64,
            bit_offset: 0,
            bit_precision: bits,
        },
    };
    DatatypeView { version: 1, size: width_of(t) as u32, class }
}

impl NcType {
    /// The type that a code in the file names.
    pub fn from_code(code: u32) -> (r: Result<Self>)
        ensures
            seen(r) == nc_type_of(code),
    {
        Ok(
            match code {
                1 => NcType::Byte,
                2 => NcType::Char,
                3 => NcType::Short,
                4 => NcType::Int,
                5 => NcType::Float,
                6 => NcType::Double,
                7 => NcType::UByte,
                8 => NcType::UShort,
                9 => NcType::UInt,
                10 => NcType::Int64,
                11 => NcType::UInt64,
                _ => {
                    return Err(Error::Malformed(numbered("classic type code ", code as u64)));
                },
            },
        )
    }

    /// Width of one element in bytes.
    pub fn size(&self) -> (r: usize)
        ensures
            r == width_of(*self),
    {
        match self {
            NcType::Byte => 1,
            NcType::Char => 1,
            NcType::UByte => 1,
            NcType::Short => 2,
            NcType::UShort => 2,
            NcType::Int => 4,
            NcType::UInt => 4,
            NcType::Float => 4,
            NcType::Double => 8,
            NcType::Int64 => 8,
            NcType::UInt64 => 8,
        }
    }

    /// Whether values of this type are signed integers.
    pub fn is_signed_integer(&self) -> (r: bool)
        ensures
            r == (self is Byte || self is Short || self is Int || self is Int64),
    {
        match self {
            NcType::Byte => true,
            NcType::Short => true,
            NcType::Int => true,
            NcType::Int64 => true,
            _ => false,
        }
    }

    /// The crate's canonical element descriptor for this type.
    ///
    /// The netCDF layer decodes every value through [`Datatype`], whatever
    /// container holds it. A classic file therefore describes its types the
    /// same way an HDF5 file does, and one decode path serves both.
    ///
    /// Classic files store values big-endian, and the order says so.
    pub fn to_datatype(&self) -> (r: Datatype)
        ensures
            r@ == datatype_of(*self),
    {
        let size: u32 = self.size() as u32;
        let class = match self {
            // netCDF `char` is a one-byte string, exactly as netcdf-c writes it
            // into HDF5. The last dimension carries the string length.
            NcType::Char => DatatypeClass::String {
                pad: StringPad::NullTerminate,
                charset: CharSet::Ascii,
            },
            NcType::Float | NcType::Double => DatatypeClass::FloatingPoint {
                order: ByteOrder::Big,
                bit_offset: 0,
                bit_precision: (size * 8) as u16,
                exponent_location: if size == 4 { 23 } else { 52 },
                exponent_size: if size == 4 { 8 } else { 11 },
                mantissa_location: 0,
                mantissa_size: if size == 4 { 23 } else { 52 },
                exponent_bias: if size == 4 { 127 } else { 1023 },
                sign_location: (size * 8 - 1) as u8,
            },
            other => DatatypeClass::FixedPoint {
                order: ByteOrder::Big,
                signed: other.is_signed_integer(),
                bit_offset: 0,
                bit_precision: (size * 8) as u16,
            },
        };
        Datatype { version: 1, size, class }
    }

    /// Whether this is an integer type. `char` is not one.
    pub fn is_integer(&self) -> (r: bool)
        ensures
            r == !(self is Float || self is Double || self is Char),
    {
        match self {
            NcType::Float => false,
            NcType::Double => false,
            NcType::Char => false,
            _ => true,
        }
    }
}

// ── what a header holds ────────────────────────────────────────────────────

/// One dimension.
#[derive(Debug, Clone)]
pub struct ClassicDimension {
    /// Dimension name.
    pub name: String,
    /// Length. Zero on disk marks the record dimension; this holds the actual
    /// record count.
    pub len: u64,
    /// Whether this is the unlimited (record) dimension.
    pub is_unlimited: bool,
}

/// What a [`ClassicDimension`] says.
#[verifier::ext_equal]
pub struct ClassicDimensionView {
    pub name: Seq<char>,
    pub len: u64,
    pub is_unlimited: bool,
}

impl View for ClassicDimension {
    type V = ClassicDimensionView;

    open spec fn view(&self) -> ClassicDimensionView {
        ClassicDimensionView {
            name: self.name@,
            len: self.len,
            is_unlimited: self.is_unlimited,
        }
    }
}

/// One attribute, with its values decoded.
#[derive(Debug, Clone)]
pub struct ClassicAttribute {
    /// Attribute name.
    pub name: String,
    /// Element type.
    pub nc_type: NcType,
    /// Text value, for `char` attributes.
    pub text: Option<String>,
    /// Numeric values, widened to 64-bit floats.
    ///
    /// The netCDF layer does not use this. It decodes [`ClassicAttribute::raw`]
    /// into a typed value instead.
    pub numbers: Vec<F64>,
    /// The values as stored, still big-endian.
    ///
    /// The netCDF layer decodes these through the same path an HDF5 attribute
    /// takes. The byte order lives in the datatype, so one decoder serves both.
    pub raw: Vec<u8>,
}

/// What a [`ClassicAttribute`] says.
#[verifier::ext_equal]
pub struct ClassicAttributeView {
    pub name: Seq<char>,
    pub nc_type: NcType,
    pub text: Option<Seq<char>>,
    pub numbers: Seq<F64>,
    pub raw: Seq<u8>,
}

impl View for ClassicAttribute {
    type V = ClassicAttributeView;

    open spec fn view(&self) -> ClassicAttributeView {
        ClassicAttributeView {
            name: self.name@,
            nc_type: self.nc_type,
            text: option_view(self.text),
            numbers: self.numbers@,
            raw: self.raw@,
        }
    }
}

/// One variable.
#[derive(Debug)]
pub struct ClassicVariable {
    /// Variable name.
    pub name: String,
    /// Names of its dimensions, in order.
    pub dimensions: Vec<String>,
    /// Shape in elements.
    pub shape: Vec<u64>,
    /// Element type.
    pub nc_type: NcType,
    /// The same type as the crate's canonical descriptor.
    ///
    /// The netCDF layer reads through this, so one decode path serves a classic
    /// file and an HDF5 file alike.
    pub datatype: Datatype,
    /// The variable's attributes.
    pub attributes: Vec<ClassicAttribute>,
    /// Byte offset of the variable's first element.
    pub begin: u64,
    /// Size on disk of one record, padded, for a record variable.
    pub record_size: u64,
    /// Whether this variable uses the record dimension.
    pub is_record: bool,
}

/// What a [`ClassicVariable`] says.
#[verifier::ext_equal]
pub struct ClassicVariableView {
    pub name: Seq<char>,
    pub dimensions: Seq<Seq<char>>,
    pub shape: Seq<u64>,
    pub nc_type: NcType,
    pub datatype: DatatypeView,
    pub attributes: Seq<ClassicAttributeView>,
    pub begin: u64,
    pub record_size: u64,
    pub is_record: bool,
}

impl View for ClassicVariable {
    type V = ClassicVariableView;

    open spec fn view(&self) -> ClassicVariableView {
        ClassicVariableView {
            name: self.name@,
            dimensions: views(self.dimensions@),
            shape: self.shape@,
            nc_type: self.nc_type,
            datatype: self.datatype@,
            attributes: views(self.attributes@),
            begin: self.begin,
            record_size: self.record_size,
            is_record: self.is_record,
        }
    }
}

/// The parsed header.
#[derive(Debug)]
pub struct Header {
    /// The file's dimensions.
    pub dimensions: Vec<ClassicDimension>,
    /// The file's global attributes.
    pub attributes: Vec<ClassicAttribute>,
    /// The file's variables.
    pub variables: Vec<ClassicVariable>,
    /// Number of records written.
    pub record_count: u64,
    /// Total size of one record across every record variable.
    pub record_stride: u64,
}

/// What a [`Header`] says.
#[verifier::ext_equal]
pub struct HeaderView {
    pub dimensions: Seq<ClassicDimensionView>,
    pub attributes: Seq<ClassicAttributeView>,
    pub variables: Seq<ClassicVariableView>,
    pub record_count: u64,
    pub record_stride: u64,
}

impl View for Header {
    type V = HeaderView;

    open spec fn view(&self) -> HeaderView {
        HeaderView {
            dimensions: views(self.dimensions@),
            attributes: views(self.attributes@),
            variables: views(self.variables@),
            record_count: self.record_count,
            record_stride: self.record_stride,
        }
    }
}

// ── fields ─────────────────────────────────────────────────────────────────

/// `n` rounded up to a multiple of four.
pub open spec fn padded(n: int) -> int {
    (n + 3) / 4 * 4
}

/// Four bytes, as the number they spell, most significant first.
pub open spec fn be_u32_at(b: Seq<u8>, p: int) -> Parse<u32> {
    match take_at(b, p, 4) {
        Ok((s, q)) => Ok((be_value(s) as u32, q)),
        Err(e) => Err(e),
    }
}

/// Eight bytes, as the number they spell, most significant first.
pub open spec fn be_u64_at(b: Seq<u8>, p: int) -> Parse<u64> {
    match take_at(b, p, 8) {
        Ok((s, q)) => Ok((be_value(s) as u64, q)),
        Err(e) => Err(e),
    }
}

/// A count, a length or an offset: eight bytes wide, or four.
pub open spec fn number_at(b: Seq<u8>, p: int, wide: bool) -> Parse<u64> {
    if wide {
        be_u64_at(b, p)
    } else {
        match be_u32_at(b, p) {
            Ok((n, q)) => Ok((n as u64, q)),
            Err(e) => Err(e),
        }
    }
}

/// Names are a length, the bytes, then padding to a four-byte boundary.
pub open spec fn name_at(b: Seq<u8>, p: int, wide: bool) -> Parse<Seq<char>> {
    match number_at(b, p, wide) {
        Err(e) => Err(e),
        Ok((len, p)) => match take_at(b, p, len as int) {
            Err(e) => Err(e),
            Ok((raw, p)) => match skip_at(b, p, padded(len as int) - len) {
                Err(e) => Err(e),
                Ok((_, p)) => Ok((utf8_lossy(raw), p)),
            },
        },
    }
}

/// The smallest multiple of four that is not below `n`.
pub fn pad4(n: u64) -> (r: u64)
    requires
        n <= u64::MAX - 3,
    ensures
        r == padded(n as int),
        r % 4 == 0,
        n <= r < n + 4,
{
    (n + 3) / 4 * 4
}

fn be_u32(cur: &mut Cursor<'_>) -> (r: Result<u32>)
    ensures
        final(cur).moved(*old(cur), seen(r), be_u32_at(old(cur).buf@, old(cur).pos as int)),
{
    let b = cur.take(4)?;
    proof {
        lemma_pow256_values();
    }
    Ok(from_be(b) as u32)
}

fn be_u64(cur: &mut Cursor<'_>) -> (r: Result<u64>)
    ensures
        final(cur).moved(*old(cur), seen(r), be_u64_at(old(cur).buf@, old(cur).pos as int)),
{
    let b = cur.take(8)?;
    Ok(from_be(b))
}

fn read_number(cur: &mut Cursor<'_>, wide: bool) -> (r: Result<u64>)
    ensures
        final(cur).moved(*old(cur), seen(r), number_at(old(cur).buf@, old(cur).pos as int, wide)),
{
    if wide {
        be_u64(cur)
    } else {
        let n: u32 = be_u32(cur)?;
        Ok(n as u64)
    }
}

/// Names are a length, the bytes, then padding to a four-byte boundary.
fn read_name(cur: &mut Cursor<'_>, wide: bool) -> (r: Result<String>)
    ensures
        final(cur).moved(*old(cur), seen(r), name_at(old(cur).buf@, old(cur).pos as int, wide)),
{
    let len: u64 = read_number(cur, wide)?;
    let raw = cur.take_long(len)?;
    let name = lossy_text(raw);
    skip_padding(cur, raw.len())?;
    Ok(name)
}

/// Skip what pads a field of `len` bytes to a multiple of four.
fn skip_padding(cur: &mut Cursor<'_>, len: usize) -> (r: Result<()>)
    ensures
        final(cur).moved(
            *old(cur),
            seen(r),
            skip_at(old(cur).buf@, old(cur).pos as int, padded(len as int) - len),
        ),
{
    cur.skip((4 - len % 4) % 4)
}

// ── numbers ────────────────────────────────────────────────────────────────

/// How the numbers of an element type are stored.
pub open spec fn kind_of(t: NcType) -> Kind {
    match t {
        NcType::Float | NcType::Double => Kind::Float,
        NcType::Byte | NcType::Short | NcType::Int | NcType::Int64 => Kind::Signed,
        _ => Kind::Unsigned,
    }
}

/// The values of an element type, least significant byte first, widened to
/// 64-bit floats.
pub open spec fn widened(bytes: Seq<u8>, t: NcType) -> Seq<F64> {
    numbers_of::<F64>(kind_of(t), width_of(t), bytes)
}

/// Widen values to 64-bit floats.
pub fn decode_numbers(bytes: &[u8], nc_type: NcType) -> (r: Vec<F64>)
    ensures
        r@ == widened(bytes@, nc_type),
{
    let kind = match nc_type {
        NcType::Float | NcType::Double => Kind::Float,
        NcType::Byte | NcType::Short | NcType::Int | NcType::Int64 => Kind::Signed,
        _ => Kind::Unsigned,
    };
    to_numbers(kind, nc_type.size(), bytes)
}

// ── attributes ─────────────────────────────────────────────────────────────

/// The bytes that `n` elements of `width` bytes take, as far as 64 bits can say.
pub open spec fn value_bytes(n: u64, width: nat) -> int {
    if n * width > u64::MAX {
        u64::MAX as int
    } else {
        n * width
    }
}

/// One attribute. A `char` attribute carries text, which ends at its first NUL.
pub open spec fn attribute_at(b: Seq<u8>, p: int, wide: bool) -> Parse<ClassicAttributeView> {
    match name_at(b, p, wide) {
        Err(e) => Err(e),
        Ok((name, p)) => match be_u32_at(b, p) {
            Err(e) => Err(e),
            Ok((code, p)) => match nc_type_of(code) {
                Err(e) => Err((e, p)),
                Ok(nc_type) => match number_at(b, p, wide) {
                    Err(e) => Err(e),
                    Ok((n, p)) => match take_at(b, p, value_bytes(n, width_of(nc_type))) {
                        Err(e) => Err(e),
                        Ok((raw, p)) => match skip_at(
                            b,
                            p,
                            padded(raw.len() as int) - raw.len(),
                        ) {
                            Err(e) => Err(e),
                            Ok((_, p)) => Ok(
                                (
                                    ClassicAttributeView {
                                        name,
                                        nc_type,
                                        text: if nc_type is Char {
                                            Some(utf8_lossy(raw.take(first_zero(raw, 0))))
                                        } else {
                                            None
                                        },
                                        numbers: if nc_type is Char {
                                            Seq::empty()
                                        } else {
                                            widened(
                                                reversed_elements(raw, width_of(nc_type)),
                                                nc_type,
                                            )
                                        },
                                        raw,
                                    },
                                    p,
                                ),
                            ),
                        },
                    },
                },
            },
        },
    }
}

/// `left` more attributes after those in `out`.
pub open spec fn attributes_from(
    b: Seq<u8>,
    p: int,
    wide: bool,
    left: nat,
    out: Seq<ClassicAttributeView>,
) -> Parse<Seq<ClassicAttributeView>>
    decreases left,
{
    if left == 0 {
        Ok((out, p))
    } else {
        match attribute_at(b, p, wide) {
            Err(e) => Err(e),
            Ok((a, p)) => attributes_from(b, p, wide, (left - 1) as nat, out.push(a)),
        }
    }
}

/// The tag and count that open a list. Tag zero stands for a list that is not
/// there, whatever its count says; any other tag than the one asked for is an
/// error.
pub open spec fn list_at(b: Seq<u8>, p: int, wide: bool, tag: u32, what: Seq<char>) -> Parse<u64> {
    match be_u32_at(b, p) {
        Err(e) => Err(e),
        Ok((found, p)) => match number_at(b, p, wide) {
            Err(e) => Err(e),
            Ok((count, p)) => if found == tag {
                Ok((count, p))
            } else if found == 0 {
                Ok((0, p))
            } else {
                Err((ErrorView::Malformed(what + decimal(found as nat)), p))
            },
        },
    }
}

/// A list of attributes.
pub open spec fn attributes_at(b: Seq<u8>, p: int, wide: bool) -> Parse<
    Seq<ClassicAttributeView>,
> {
    match list_at(b, p, wide, NC_ATTRIBUTE, "expected an attribute list, found tag "@) {
        Err(e) => Err(e),
        Ok((count, p)) => attributes_from(b, p, wide, count as nat, Seq::empty()),
    }
}

fn read_list(cur: &mut Cursor<'_>, wide: bool, tag: u32, what: &str) -> (r: Result<u64>)
    ensures
        final(cur).moved(
            *old(cur),
            seen(r),
            list_at(old(cur).buf@, old(cur).pos as int, wide, tag, what@),
        ),
{
    let found: u32 = be_u32(cur)?;
    let count: u64 = read_number(cur, wide)?;
    if found == tag {
        Ok(count)
    } else if found == 0 {
        Ok(0)
    } else {
        Err(Error::Malformed(numbered(what, found as u64)))
    }
}

fn read_attribute(cur: &mut Cursor<'_>, wide: bool) -> (r: Result<ClassicAttribute>)
    ensures
        final(cur).moved(
            *old(cur),
            seen(r),
            attribute_at(old(cur).buf@, old(cur).pos as int, wide),
        ),
{
    let name = read_name(cur, wide)?;
    let nc_type = NcType::from_code(be_u32(cur)?)?;
    let n: u64 = read_number(cur, wide)?;
    let bytes: u64 = match n.checked_mul(nc_type.size() as u64) {
        Some(bytes) => bytes,
        None => u64::MAX,
    };
    let raw = cur.take_long(bytes)?;
    skip_padding(cur, raw.len())?;
    let text = match nc_type {
        NcType::Char => {
            let end: usize = position_of_zero(raw, 0);
            proof {
                lemma_first_zero(raw@, 0);
                assert(raw@.subrange(0, end as int) =~= raw@.take(end as int));
            }
            Some(lossy_text(slice_subrange(raw, 0, end)))
        },
        _ => None,
    };
    let raw = slice_to_vec(raw);
    let numbers = match nc_type {
        NcType::Char => Vec::new(),
        _ => {
            proof {
                vstd::arithmetic::div_mod::lemma_mod_multiples_basic(
                    n as int,
                    width_of(nc_type) as int,
                );
            }
            decode_numbers(reverse_elements(&raw, nc_type.size()).as_slice(), nc_type)
        },
    };
    Ok(ClassicAttribute { name, nc_type, text, numbers, raw })
}

fn read_attributes(cur: &mut Cursor<'_>, wide: bool) -> (r: Result<Vec<ClassicAttribute>>)
    ensures
        final(cur).moved(
            *old(cur),
            match r {
                Ok(v) => Ok(views(v@)),
                Err(e) => Err(e@),
            },
            attributes_at(old(cur).buf@, old(cur).pos as int, wide),
        ),
{
    let ghost want = attributes_at(cur.buf@, cur.pos as int, wide);
    let count: u64 = read_list(
        cur,
        wide,
        NC_ATTRIBUTE,
        "expected an attribute list, found tag ",
    )?;
    let mut out: Vec<ClassicAttribute> = Vec::new();
    let mut left: u64 = count;
    while left > 0
        invariant
            cur.buf == old(cur).buf,
            want == attributes_at(old(cur).buf@, old(cur).pos as int, wide),
            want == attributes_from(cur.buf@, cur.pos as int, wide, left as nat, views(out@)),
        decreases left,
    {
        let a = read_attribute(cur, wide)?;
        out.push(a);
        left = left - 1;
    }
    Ok(out)
}

// ── dimensions ─────────────────────────────────────────────────────────────

/// `left` more dimensions after those in `out`.
///
/// The record dimension's real length comes from the header's record count,
/// not from the zero stored in its entry.
pub open spec fn dimensions_from(
    b: Seq<u8>,
    p: int,
    wide: bool,
    records: u64,
    left: nat,
    out: Seq<ClassicDimensionView>,
) -> Parse<Seq<ClassicDimensionView>>
    decreases left,
{
    if left == 0 {
        Ok((out, p))
    } else {
        match name_at(b, p, wide) {
            Err(e) => Err(e),
            Ok((name, p)) => match number_at(b, p, wide) {
                Err(e) => Err(e),
                Ok((len, p)) => dimensions_from(
                    b,
                    p,
                    wide,
                    records,
                    (left - 1) as nat,
                    out.push(
                        ClassicDimensionView {
                            name,
                            len: if len == 0 {
                                records
                            } else {
                                len
                            },
                            is_unlimited: len == 0,
                        },
                    ),
                ),
            },
        }
    }
}

/// The list of dimensions.
pub open spec fn dimensions_at(b: Seq<u8>, p: int, wide: bool, records: u64) -> Parse<
    Seq<ClassicDimensionView>,
> {
    match list_at(b, p, wide, NC_DIMENSION, "expected a dimension list, found tag "@) {
        Err(e) => Err(e),
        Ok((count, p)) => dimensions_from(b, p, wide, records, count as nat, Seq::empty()),
    }
}

fn read_dimensions(cur: &mut Cursor<'_>, wide: bool, records: u64) -> (r: Result<
    Vec<ClassicDimension>,
>)
    ensures
        final(cur).moved(
            *old(cur),
            match r {
                Ok(v) => Ok(views(v@)),
                Err(e) => Err(e@),
            },
            dimensions_at(old(cur).buf@, old(cur).pos as int, wide, records),
        ),
{
    let ghost want = dimensions_at(cur.buf@, cur.pos as int, wide, records);
    let count: u64 = read_list(
        cur,
        wide,
        NC_DIMENSION,
        "expected a dimension list, found tag ",
    )?;
    let mut out: Vec<ClassicDimension> = Vec::new();
    let mut left: u64 = count;
    while left > 0
        invariant
            cur.buf == old(cur).buf,
            want == dimensions_at(old(cur).buf@, old(cur).pos as int, wide, records),
            want == dimensions_from(
                cur.buf@,
                cur.pos as int,
                wide,
                records,
                left as nat,
                views(out@),
            ),
        decreases left,
    {
        let name = read_name(cur, wide)?;
        let len: u64 = read_number(cur, wide)?;
        out.push(
            ClassicDimension {
                name,
                len: if len == 0 { records } else { len },
                is_unlimited: len == 0,
            },
        );
        left = left - 1;
    }
    Ok(out)
}

// ── variables ──────────────────────────────────────────────────────────────

/// `left` more numbers after those in `out`.
pub open spec fn numbers_from(b: Seq<u8>, p: int, wide: bool, left: nat, out: Seq<u64>) -> Parse<
    Seq<u64>,
>
    decreases left,
{
    if left == 0 {
        Ok((out, p))
    } else {
        match number_at(b, p, wide) {
            Err(e) => Err(e),
            Ok((n, p)) => numbers_from(b, p, wide, (left - 1) as nat, out.push(n)),
        }
    }
}

/// The first of `ids` from `i` on that is no dimension of a file with `n` of them.
pub open spec fn first_missing(ids: Seq<u64>, n: nat, i: int) -> int
    decreases ids.len() - i,
{
    if i >= ids.len() || ids[i] >= n {
        i
    } else {
        first_missing(ids, n, i + 1)
    }
}

/// What one record of a variable takes without padding: everything but the
/// leading axis.
pub open spec fn record_bytes(shape: Seq<u64>, nc_type: NcType) -> nat {
    product(shape.skip(1)) * width_of(nc_type)
}

/// The shape that a list of dimensions spans.
pub open spec fn shape_of(dims: Seq<ClassicDimensionView>, ids: Seq<u64>) -> Seq<u64> {
    Seq::new(ids.len(), |i: int| dims[ids[i] as int].len)
}

/// The names of a list of dimensions.
pub open spec fn names_of(dims: Seq<ClassicDimensionView>, ids: Seq<u64>) -> Seq<Seq<char>> {
    Seq::new(ids.len(), |i: int| dims[ids[i] as int].name)
}

/// A variable, put together from the fields of its descriptor.
pub open spec fn variable_of(
    dims: Seq<ClassicDimensionView>,
    name: Seq<char>,
    ids: Seq<u64>,
    attributes: Seq<ClassicAttributeView>,
    nc_type: NcType,
    begin: u64,
) -> std::result::Result<ClassicVariableView, ErrorView> {
    let missing = first_missing(ids, dims.len(), 0);
    let shape = shape_of(dims, ids);
    let is_record = ids.len() > 0 && dims[ids[0] as int].is_unlimited;
    if missing < ids.len() {
        Err(
            ErrorView::Malformed(
                "variable "@ + name + " names dimension "@ + decimal(ids[missing] as nat)
                    + ", which does not exist"@,
            ),
        )
    } else if is_record && record_bytes(shape, nc_type) > u64::MAX - 3 {
        Err(
            ErrorView::Malformed(
                "variable "@ + name + " has records larger than 64 bits can count"@,
            ),
        )
    } else {
        Ok(
            ClassicVariableView {
                name,
                dimensions: names_of(dims, ids),
                shape,
                nc_type,
                datatype: datatype_of(nc_type),
                attributes,
                begin,
                record_size: if is_record {
                    padded(record_bytes(shape, nc_type) as int) as u64
                } else {
                    0
                },
                is_record,
            },
        )
    }
}

/// One variable: its name, the numbers of its dimensions, its attributes, its
/// type, a size that repeats what the shape says, and where its data begins.
pub open spec fn variable_at(
    b: Seq<u8>,
    p: int,
    container: Container,
    dims: Seq<ClassicDimensionView>,
) -> Parse<ClassicVariableView> {
    let wide = container is Cdf5;
    match name_at(b, p, wide) {
        Err(e) => Err(e),
        Ok((name, p)) => match number_at(b, p, wide) {
            Err(e) => Err(e),
            Ok((rank, p)) => match numbers_from(b, p, wide, rank as nat, Seq::empty()) {
                Err(e) => Err(e),
                Ok((ids, p)) => match attributes_at(b, p, wide) {
                    Err(e) => Err(e),
                    Ok((attributes, p)) => match be_u32_at(b, p) {
                        Err(e) => Err(e),
                        Ok((code, p)) => match nc_type_of(code) {
                            Err(e) => Err((e, p)),
                            Ok(nc_type) => match number_at(b, p, wide) {
                                Err(e) => Err(e),
                                Ok((_, p)) => match number_at(b, p, !(container is Cdf1)) {
                                    Err(e) => Err(e),
                                    Ok((begin, p)) => match variable_of(
                                        dims,
                                        name,
                                        ids,
                                        attributes,
                                        nc_type,
                                        begin,
                                    ) {
                                        Err(e) => Err((e, p)),
                                        Ok(v) => Ok((v, p)),
                                    },
                                },
                            },
                        },
                    },
                },
            },
        },
    }
}

/// `left` more variables after those in `out`.
pub open spec fn variables_from(
    b: Seq<u8>,
    p: int,
    container: Container,
    dims: Seq<ClassicDimensionView>,
    left: nat,
    out: Seq<ClassicVariableView>,
) -> Parse<Seq<ClassicVariableView>>
    decreases left,
{
    if left == 0 {
        Ok((out, p))
    } else {
        match variable_at(b, p, container, dims) {
            Err(e) => Err(e),
            Ok((v, p)) => variables_from(b, p, container, dims, (left - 1) as nat, out.push(v)),
        }
    }
}

/// The list of variables.
pub open spec fn variables_at(
    b: Seq<u8>,
    p: int,
    container: Container,
    dims: Seq<ClassicDimensionView>,
) -> Parse<Seq<ClassicVariableView>> {
    match list_at(
        b,
        p,
        container is Cdf5,
        NC_VARIABLE,
        "expected a variable list, found tag "@,
    ) {
        Err(e) => Err(e),
        Ok((count, p)) => variables_from(b, p, container, dims, count as nat, Seq::empty()),
    }
}

fn read_numbers(cur: &mut Cursor<'_>, wide: bool, count: u64) -> (r: Result<Vec<u64>>)
    ensures
        final(cur).moved(
            *old(cur),
            seen(r),
            numbers_from(old(cur).buf@, old(cur).pos as int, wide, count as nat, Seq::empty()),
        ),
{
    let ghost want = numbers_from(cur.buf@, cur.pos as int, wide, count as nat, Seq::empty());
    let mut out: Vec<u64> = Vec::new();
    let mut left: u64 = count;
    while left > 0
        invariant
            cur.buf == old(cur).buf,
            want == numbers_from(
                old(cur).buf@,
                old(cur).pos as int,
                wide,
                count as nat,
                Seq::empty(),
            ),
            want == numbers_from(cur.buf@, cur.pos as int, wide, left as nat, out@),
        decreases left,
    {
        let n: u64 = read_number(cur, wide)?;
        out.push(n);
        left = left - 1;
    }
    Ok(out)
}

/// What one record of a variable takes without padding, where 64 bits can say it.
fn bytes_of_record(shape: &[u64], nc_type: NcType) -> (r: Option<u64>)
    requires
        shape@.len() > 0,
    ensures
        match r {
            Some(n) => n == record_bytes(shape@, nc_type),
            None => record_bytes(shape@, nc_type) > u64::MAX,
        },
{
    let inner = slice_subrange(shape, 1, shape.len());
    assert(inner@ =~= shape@.skip(1));
    let width: u64 = nc_type.size() as u64;
    match checked_product(inner) {
        None => {
            proof {
                let n = product(inner@);
                assert(n * width >= n) by (nonlinear_arith)
                    requires
                        width >= 1,
                ;
            }
            None
        },
        Some(n) => n.checked_mul(width),
    }
}

proof fn lemma_first_missing(ids: Seq<u64>, n: nat, i: int)
    requires
        0 <= i <= ids.len(),
        forall|k: int| 0 <= k < i ==> ids[k] < n,
    ensures
        first_missing(ids, n, 0) == first_missing(ids, n, i),
    decreases i,
{
    if i > 0 {
        lemma_first_missing(ids, n, i - 1);
    }
}

fn make_variable(
    dims: &Vec<ClassicDimension>,
    name: String,
    ids: &Vec<u64>,
    attributes: Vec<ClassicAttribute>,
    nc_type: NcType,
    begin: u64,
) -> (r: Result<ClassicVariable>)
    ensures
        seen(r) == variable_of(
            views(dims@),
            name@,
            ids@,
            views(attributes@),
            nc_type,
            begin,
        ),
{
    let mut shape: Vec<u64> = Vec::new();
    let mut dimensions: Vec<String> = Vec::new();
    let ghost want_shape = shape_of(views(dims@), ids@);
    let ghost want_names = names_of(views(dims@), ids@);
    let mut i: usize = 0;
    while i < ids.len()
        invariant
            i <= ids@.len(),
            want_shape == shape_of(views(dims@), ids@),
            want_names == names_of(views(dims@), ids@),
            forall|k: int| 0 <= k < i ==> ids@[k] < dims@.len(),
            shape@ == want_shape.take(i as int),
            views(dimensions@) == want_names.take(i as int),
        decreases ids@.len() - i,
    {
        let id: u64 = ids[i];
        if id >= dims.len() as u64 {
            proof {
                lemma_first_missing(ids@, dims@.len(), i as int);
            }
            let m = joined("variable ", name.as_str());
            let m = add_number(add_text(m, " names dimension "), id);
            return Err(Error::Malformed(add_text(m, ", which does not exist")));
        }
        let d = &dims[id as usize];
        shape.push(d.len);
        dimensions.push(String::from_str(d.name.as_str()));
        i = i + 1;
        assert(shape@ =~= want_shape.take(i as int));
        assert(views(dimensions@) =~= want_names.take(i as int));
    }
    proof {
        lemma_first_missing(ids@, dims@.len(), i as int);
        assert(want_shape.take(i as int) =~= want_shape);
        assert(want_names.take(i as int) =~= want_names);
    }
    assert(ids@.len() > 0 ==> ids@[0] < dims.len());
    let is_record: bool = ids.len() > 0 && dims[ids[0] as usize].is_unlimited;
    // One record's worth of this variable, padded to four bytes.
    let record_size: u64 = if is_record {
        match bytes_of_record(shape.as_slice(), nc_type) {
            Some(n) if n <= u64::MAX - 3 => pad4(n),
            _ => {
                let m = joined("variable ", name.as_str());
                return Err(
                    Error::Malformed(add_text(m, " has records larger than 64 bits can count")),
                );
            },
        }
    } else {
        0
    };
    Ok(
        ClassicVariable {
            name,
            dimensions,
            shape,
            nc_type,
            datatype: nc_type.to_datatype(),
            attributes,
            begin,
            record_size,
            is_record,
        },
    )
}

fn read_variable(cur: &mut Cursor<'_>, container: Container, dims: &Vec<ClassicDimension>) -> (r:
    Result<ClassicVariable>)
    ensures
        final(cur).moved(
            *old(cur),
            seen(r),
            variable_at(old(cur).buf@, old(cur).pos as int, container, views(dims@)),
        ),
{
    let wide: bool = container == Container::Cdf5;
    let name = read_name(cur, wide)?;
    let rank: u64 = read_number(cur, wide)?;
    let ids: Vec<u64> = read_numbers(cur, wide, rank)?;
    let attributes = read_attributes(cur, wide)?;
    let nc_type = NcType::from_code(be_u32(cur)?)?;
    let _vsize: u64 = read_number(cur, wide)?;
    let begin: u64 = read_number(cur, container != Container::Cdf1)?;
    make_variable(dims, name, &ids, attributes, nc_type, begin)
}

fn read_variables(cur: &mut Cursor<'_>, container: Container, dims: &Vec<ClassicDimension>) -> (r:
    Result<Vec<ClassicVariable>>)
    ensures
        final(cur).moved(
            *old(cur),
            match r {
                Ok(v) => Ok(views(v@)),
                Err(e) => Err(e@),
            },
            variables_at(old(cur).buf@, old(cur).pos as int, container, views(dims@)),
        ),
{
    let ghost want = variables_at(cur.buf@, cur.pos as int, container, views(dims@));
    let count: u64 = read_list(
        cur,
        container == Container::Cdf5,
        NC_VARIABLE,
        "expected a variable list, found tag ",
    )?;
    let mut out: Vec<ClassicVariable> = Vec::new();
    let mut left: u64 = count;
    while left > 0
        invariant
            cur.buf == old(cur).buf,
            want == variables_at(old(cur).buf@, old(cur).pos as int, container, views(dims@)),
            want == variables_from(
                cur.buf@,
                cur.pos as int,
                container,
                views(dims@),
                left as nat,
                views(out@),
            ),
        decreases left,
    {
        let v = read_variable(cur, container, dims)?;
        out.push(v);
        left = left - 1;
    }
    Ok(out)
}

// ── the header ─────────────────────────────────────────────────────────────

/// How many of the variables are record variables.
pub open spec fn record_variables(vs: Seq<ClassicVariableView>) -> nat
    decreases vs.len(),
{
    if vs.len() == 0 {
        0
    } else {
        record_variables(vs.drop_last()) + if vs.last().is_record {
            1nat
        } else {
            0nat
        }
    }
}

/// What one record of every record variable takes, each padded.
pub open spec fn padded_records(vs: Seq<ClassicVariableView>) -> nat
    decreases vs.len(),
{
    if vs.len() == 0 {
        0
    } else {
        padded_records(vs.drop_last()) + if vs.last().is_record {
            vs.last().record_size as nat
        } else {
            0nat
        }
    }
}

/// What one record of every record variable takes, without any padding.
pub open spec fn unpadded_records(vs: Seq<ClassicVariableView>) -> nat
    decreases vs.len(),
{
    if vs.len() == 0 {
        0
    } else {
        unpadded_records(vs.drop_last()) + if vs.last().is_record {
            record_bytes(vs.last().shape, vs.last().nc_type)
        } else {
            0nat
        }
    }
}

/// The distance between two records of one variable.
///
/// A record variable's stride is the sum over every record variable. The one
/// exception: with exactly one record variable there is no padding between
/// records.
pub open spec fn stride_of(vs: Seq<ClassicVariableView>) -> std::result::Result<u64, ErrorView> {
    let stride = if record_variables(vs) == 1 {
        unpadded_records(vs)
    } else {
        padded_records(vs)
    };
    if stride > u64::MAX {
        Err(ErrorView::Malformed("the records are larger than 64 bits can count"@))
    } else {
        Ok(stride as u64)
    }
}

/// A header, from its magic number on.
pub open spec fn header_at(b: Seq<u8>, p: int, container: Container) -> Parse<HeaderView> {
    let wide = container is Cdf5;
    match skip_at(b, p, 4) {
        Err(e) => Err(e),
        Ok((_, p)) => match be_u32_at(b, p) {
            Err(e) => Err(e),
            Ok((records, p)) => match dimensions_at(b, p, wide, records as u64) {
                Err(e) => Err(e),
                Ok((dimensions, p)) => match attributes_at(b, p, wide) {
                    Err(e) => Err(e),
                    Ok((attributes, p)) => match variables_at(b, p, container, dimensions) {
                        Err(e) => Err(e),
                        Ok((variables, p)) => match stride_of(variables) {
                            Err(e) => Err((e, p)),
                            Ok(record_stride) => Ok(
                                (
                                    HeaderView {
                                        dimensions,
                                        attributes,
                                        variables,
                                        record_count: records as u64,
                                        record_stride,
                                    },
                                    p,
                                ),
                            ),
                        },
                    },
                },
            },
        },
    }
}

fn record_stride(variables: &Vec<ClassicVariable>) -> (r: Result<u64>)
    requires
        forall|i: int|
            0 <= i < variables@.len() && #[trigger] variables@[i].is_record ==> variables@[i].shape@.len()
                > 0,
    ensures
        seen(r) == stride_of(views(variables@)),
{
    let ghost vs = views(variables@);
    let mut count: usize = 0;
    let mut total: u128 = 0;
    let mut last: usize = 0;
    let mut i: usize = 0;
    while i < variables.len()
        invariant
            i <= variables@.len(),
            vs == views(variables@),
            count == record_variables(vs.take(i as int)) <= i,
            total == padded_records(vs.take(i as int)) <= i * u64::MAX,
            count == 0 ==> unpadded_records(vs.take(i as int)) == 0,
            count > 0 ==> last < i && variables@[last as int].is_record,
            count == 1 ==> unpadded_records(vs.take(i as int)) == record_bytes(
                variables@[last as int].shape@,
                variables@[last as int].nc_type,
            ),
        decreases variables@.len() - i,
    {
        let v = &variables[i];
        proof {
            assert(vs.take(i + 1).drop_last() =~= vs.take(i as int));
            assert((i + 1) * u64::MAX == i * u64::MAX + u64::MAX) by (nonlinear_arith);
            assert(i * u64::MAX + u64::MAX <= u128::MAX) by (nonlinear_arith)
                requires
                    i <= u64::MAX - 1,
            ;
            assert(i <= usize::MAX - 1);
        }
        if v.is_record {
            total = total + v.record_size as u128;
            count = count + 1;
            last = i;
        }
        i = i + 1;
    }
    assert(vs.take(i as int) =~= vs);
    if count == 1 {
        let v = &variables[last];
        match bytes_of_record(v.shape.as_slice(), v.nc_type) {
            Some(n) => Ok(n),
            None => Err(Error::malformed("the records are larger than 64 bits can count")),
        }
    } else if total > u64::MAX as u128 {
        Err(Error::malformed("the records are larger than 64 bits can count"))
    } else {
        Ok(total as u64)
    }
}

/// Every record variable has the record axis.
proof fn lemma_record_rank(
    b: Seq<u8>,
    p: int,
    container: Container,
    dims: Seq<ClassicDimensionView>,
    left: nat,
    out: Seq<ClassicVariableView>,
)
    requires
        forall|i: int| 0 <= i < out.len() && #[trigger] out[i].is_record ==> out[i].shape.len() > 0,
    ensures
        variables_from(b, p, container, dims, left, out) matches Ok((vs, _)) ==> forall|i: int|
            0 <= i < vs.len() && #[trigger] vs[i].is_record ==> vs[i].shape.len() > 0,
    decreases left,
{
    if left > 0 {
        match variable_at(b, p, container, dims) {
            Ok((v, q)) => {
                lemma_record_rank(b, q, container, dims, (left - 1) as nat, out.push(v));
            },
            Err(_) => {},
        }
    }
}

impl Header {
    /// Parse a header that stands at the start of `buf`.
    pub fn parse(buf: &[u8], container: Container) -> (r: Result<Self>)
        ensures
            seen(r) == value_of(header_at(buf@, 0, container)),
    {
        let mut cur = Cursor::new(buf);
        cur.skip(4)?;  // magic

        // Classic headers are big-endian throughout.
        let record_count: u64 = be_u32(&mut cur)? as u64;
        let wide: bool = container == Container::Cdf5;
        let dimensions = read_dimensions(&mut cur, wide, record_count)?;
        let attributes = read_attributes(&mut cur, wide)?;
        let ghost p = cur.pos as int;
        let variables = read_variables(&mut cur, container, &dimensions)?;
        proof {
            let dims = views(dimensions@);
            match list_at(buf@, p, wide, NC_VARIABLE, "expected a variable list, found tag "@) {
                Ok((count, q)) => {
                    lemma_record_rank(buf@, q, container, dims, count as nat, Seq::empty());
                },
                Err(_) => {},
            }
            let vs = views(variables@);
            assert forall|i: int|
                0 <= i < variables@.len() && #[trigger] variables@[i].is_record implies variables@[i].shape@.len()
                > 0 by {
                assert(vs[i] == variables@[i]@);
                assert(vs[i].is_record);
            }
        }
        let record_stride: u64 = record_stride(&variables)?;
        Ok(Self { dimensions, attributes, variables, record_count, record_stride })
    }
}

// ── the header does not depend on how much of the file was read ────────────

/// Parsing a prefix of a buffer ran out of bytes, or gave what the whole
/// buffer gives.
spec fn settled<T>(prefix: Parse<T>, whole: Parse<T>, p: int) -> bool {
    &&& (prefix is Err && prefix->Err_0.0 is OutOfBounds) || prefix == whole
    &&& whole matches Ok((_, q)) ==> p <= q
}

proof fn lemma_take_settled(b: Seq<u8>, w: int, p: int, n: int)
    requires
        0 <= w <= b.len(),
        0 <= p,
        0 <= n,
    ensures
        settled(take_at(b.take(w), p, n), take_at(b, p, n), p),
        settled(skip_at(b.take(w), p, n), skip_at(b, p, n), p),
{
    if p + n <= w {
        assert(b.take(w).subrange(p, p + n) =~= b.subrange(p, p + n));
    }
}

proof fn lemma_number_settled(b: Seq<u8>, w: int, p: int, wide: bool)
    requires
        0 <= w <= b.len(),
        0 <= p,
    ensures
        settled(be_u32_at(b.take(w), p), be_u32_at(b, p), p),
        settled(number_at(b.take(w), p, wide), number_at(b, p, wide), p),
{
    lemma_take_settled(b, w, p, 4);
    lemma_take_settled(b, w, p, 8);
}

proof fn lemma_name_settled(b: Seq<u8>, w: int, p: int, wide: bool)
    requires
        0 <= w <= b.len(),
        0 <= p,
    ensures
        settled(name_at(b.take(w), p, wide), name_at(b, p, wide), p),
{
    lemma_number_settled(b, w, p, wide);
    match number_at(b, p, wide) {
        Ok((len, p)) => {
            lemma_take_settled(b, w, p, len as int);
            lemma_take_settled(b, w, p + len, padded(len as int) - len);
        },
        Err(_) => {},
    }
}

proof fn lemma_attribute_settled(b: Seq<u8>, w: int, p: int, wide: bool)
    requires
        0 <= w <= b.len(),
        0 <= p,
    ensures
        settled(attribute_at(b.take(w), p, wide), attribute_at(b, p, wide), p),
{
    lemma_name_settled(b, w, p, wide);
    match name_at(b, p, wide) {
        Ok((_, p)) => {
            lemma_number_settled(b, w, p, wide);
            match be_u32_at(b, p) {
                Ok((code, p)) => {
                    lemma_number_settled(b, w, p, wide);
                    match (nc_type_of(code), number_at(b, p, wide)) {
                        (Ok(nc_type), Ok((n, p))) => {
                            let len = value_bytes(n, width_of(nc_type));
                            assert(n * width_of(nc_type) >= 0) by (nonlinear_arith);
                            lemma_take_settled(b, w, p, len);
                            lemma_take_settled(b, w, p + len, padded(len) - len);
                        },
                        _ => {},
                    }
                },
                Err(_) => {},
            }
        },
        Err(_) => {},
    }
}

proof fn lemma_attributes_from_settled(
    b: Seq<u8>,
    w: int,
    p: int,
    wide: bool,
    left: nat,
    out: Seq<ClassicAttributeView>,
)
    requires
        0 <= w <= b.len(),
        0 <= p,
    ensures
        settled(
            attributes_from(b.take(w), p, wide, left, out),
            attributes_from(b, p, wide, left, out),
            p,
        ),
    decreases left,
{
    if left > 0 {
        lemma_attribute_settled(b, w, p, wide);
        match attribute_at(b, p, wide) {
            Ok((a, p)) => {
                lemma_attributes_from_settled(b, w, p, wide, (left - 1) as nat, out.push(a));
            },
            Err(_) => {},
        }
    }
}

proof fn lemma_list_settled(b: Seq<u8>, w: int, p: int, wide: bool, tag: u32, what: Seq<char>)
    requires
        0 <= w <= b.len(),
        0 <= p,
    ensures
        settled(list_at(b.take(w), p, wide, tag, what), list_at(b, p, wide, tag, what), p),
{
    lemma_number_settled(b, w, p, wide);
    match be_u32_at(b, p) {
        Ok((_, p)) => {
            lemma_number_settled(b, w, p, wide);
        },
        Err(_) => {},
    }
}

proof fn lemma_attributes_settled(b: Seq<u8>, w: int, p: int, wide: bool)
    requires
        0 <= w <= b.len(),
        0 <= p,
    ensures
        settled(attributes_at(b.take(w), p, wide), attributes_at(b, p, wide), p),
{
    let what = "expected an attribute list, found tag "@;
    lemma_list_settled(b, w, p, wide, NC_ATTRIBUTE, what);
    match list_at(b, p, wide, NC_ATTRIBUTE, what) {
        Ok((count, p)) => {
            lemma_attributes_from_settled(b, w, p, wide, count as nat, Seq::empty());
        },
        Err(_) => {},
    }
}

proof fn lemma_dimensions_from_settled(
    b: Seq<u8>,
    w: int,
    p: int,
    wide: bool,
    records: u64,
    left: nat,
    out: Seq<ClassicDimensionView>,
)
    requires
        0 <= w <= b.len(),
        0 <= p,
    ensures
        settled(
            dimensions_from(b.take(w), p, wide, records, left, out),
            dimensions_from(b, p, wide, records, left, out),
            p,
        ),
    decreases left,
{
    if left > 0 {
        lemma_name_settled(b, w, p, wide);
        match name_at(b, p, wide) {
            Ok((name, p)) => {
                lemma_number_settled(b, w, p, wide);
                match number_at(b, p, wide) {
                    Ok((len, p)) => {
                        let d = ClassicDimensionView {
                            name,
                            len: if len == 0 {
                                records
                            } else {
                                len
                            },
                            is_unlimited: len == 0,
                        };
                        lemma_dimensions_from_settled(
                            b,
                            w,
                            p,
                            wide,
                            records,
                            (left - 1) as nat,
                            out.push(d),
                        );
                    },
                    Err(_) => {},
                }
            },
            Err(_) => {},
        }
    }
}

proof fn lemma_numbers_settled(b: Seq<u8>, w: int, p: int, wide: bool, left: nat, out: Seq<u64>)
    requires
        0 <= w <= b.len(),
        0 <= p,
    ensures
        settled(
            numbers_from(b.take(w), p, wide, left, out),
            numbers_from(b, p, wide, left, out),
            p,
        ),
    decreases left,
{
    if left > 0 {
        lemma_number_settled(b, w, p, wide);
        match number_at(b, p, wide) {
            Ok((n, p)) => {
                lemma_numbers_settled(b, w, p, wide, (left - 1) as nat, out.push(n));
            },
            Err(_) => {},
        }
    }
}

proof fn lemma_variable_settled(
    b: Seq<u8>,
    w: int,
    p: int,
    container: Container,
    dims: Seq<ClassicDimensionView>,
)
    requires
        0 <= w <= b.len(),
        0 <= p,
    ensures
        settled(variable_at(b.take(w), p, container, dims), variable_at(b, p, container, dims), p),
{
    let wide = container is Cdf5;
    lemma_name_settled(b, w, p, wide);
    match name_at(b, p, wide) {
        Ok((_, p)) => {
            lemma_number_settled(b, w, p, wide);
            match number_at(b, p, wide) {
                Ok((rank, p)) => {
                    lemma_numbers_settled(b, w, p, wide, rank as nat, Seq::empty());
                    match numbers_from(b, p, wide, rank as nat, Seq::empty()) {
                        Ok((_, p)) => {
                            lemma_attributes_settled(b, w, p, wide);
                            match attributes_at(b, p, wide) {
                                Ok((_, p)) => {
                                    lemma_number_settled(b, w, p, wide);
                                    match be_u32_at(b, p) {
                                        Ok((_, p)) => {
                                            lemma_number_settled(b, w, p, wide);
                                            match number_at(b, p, wide) {
                                                Ok((_, p)) => {
                                                    lemma_number_settled(
                                                        b,
                                                        w,
                                                        p,
                                                        !(container is Cdf1),
                                                    );
                                                },
                                                Err(_) => {},
                                            }
                                        },
                                        Err(_) => {},
                                    }
                                },
                                Err(_) => {},
                            }
                        },
                        Err(_) => {},
                    }
                },
                Err(_) => {},
            }
        },
        Err(_) => {},
    }
}

proof fn lemma_variables_from_settled(
    b: Seq<u8>,
    w: int,
    p: int,
    container: Container,
    dims: Seq<ClassicDimensionView>,
    left: nat,
    out: Seq<ClassicVariableView>,
)
    requires
        0 <= w <= b.len(),
        0 <= p,
    ensures
        settled(
            variables_from(b.take(w), p, container, dims, left, out),
            variables_from(b, p, container, dims, left, out),
            p,
        ),
    decreases left,
{
    if left > 0 {
        lemma_variable_settled(b, w, p, container, dims);
        match variable_at(b, p, container, dims) {
            Ok((v, p)) => {
                lemma_variables_from_settled(
                    b,
                    w,
                    p,
                    container,
                    dims,
                    (left - 1) as nat,
                    out.push(v),
                );
            },
            Err(_) => {},
        }
    }
}

/// A header reads the same from any prefix of the file that holds it: parsing
/// a prefix either runs out of bytes or gives what the whole file gives.
pub proof fn a_prefix_is_enough(b: Seq<u8>, w: int, container: Container)
    requires
        0 <= w <= b.len(),
    ensures
        ({
            let prefix = value_of(header_at(b.take(w), 0, container));
            (prefix is Err && prefix->Err_0 is OutOfBounds) || prefix == value_of(
                header_at(b, 0, container),
            )
        }),
{
    let wide = container is Cdf5;
    lemma_take_settled(b, w, 0, 4);
    lemma_number_settled(b, w, 4, wide);
    match be_u32_at(b, 4) {
        Ok((records, p)) => {
            let what = "expected a dimension list, found tag "@;
            lemma_list_settled(b, w, p, wide, NC_DIMENSION, what);
            match list_at(b, p, wide, NC_DIMENSION, what) {
                Ok((count, p)) => {
                    lemma_dimensions_from_settled(
                        b,
                        w,
                        p,
                        wide,
                        records as u64,
                        count as nat,
                        Seq::empty(),
                    );
                },
                Err(_) => {},
            }
            match dimensions_at(b, p, wide, records as u64) {
                Ok((dims, p)) => {
                    lemma_attributes_settled(b, w, p, wide);
                    match attributes_at(b, p, wide) {
                        Ok((_, p)) => {
                            let what = "expected a variable list, found tag "@;
                            lemma_list_settled(b, w, p, wide, NC_VARIABLE, what);
                            match list_at(b, p, wide, NC_VARIABLE, what) {
                                Ok((count, p)) => {
                                    lemma_variables_from_settled(
                                        b,
                                        w,
                                        p,
                                        container,
                                        dims,
                                        count as nat,
                                        Seq::empty(),
                                    );
                                },
                                Err(_) => {},
                            }
                        },
                        Err(_) => {},
                    }
                },
                Err(_) => {},
            }
        },
        Err(_) => {},
    }
}

// ── an open file ───────────────────────────────────────────────────────────

/// An open netCDF classic file.
///
/// Like the HDF5 side, the header is parsed once into an immutable index and
/// reads are pure functions over it, so this type is `Send + Sync`.
pub struct ClassicFile<S: ByteSource + ?Sized> {
    /// Where the bytes come from.
    pub source: Arc<S>,
    /// Which classic variant this is.
    pub container: Container,
    /// The file's dimensions.
    pub dimensions: Vec<ClassicDimension>,
    /// The file's global attributes.
    pub attributes: Vec<ClassicAttribute>,
    /// The file's variables.
    pub variables: Vec<ClassicVariable>,
    /// Number of records written.
    pub record_count: u64,
    /// Total size of one record across every record variable.
    pub record_stride: u64,
}

/// Which classic variant a magic number names.
pub open spec fn variant_of(magic: Seq<u8>) -> std::result::Result<Container, ErrorView> {
    if magic == seq![0x43u8, 0x44u8, 0x46u8, 1u8] {
        Ok(Container::Cdf1)
    } else if magic == seq![0x43u8, 0x44u8, 0x46u8, 2u8] {
        Ok(Container::Cdf2)
    } else if magic == seq![0x43u8, 0x44u8, 0x46u8, 5u8] {
        Ok(Container::Cdf5)
    } else {
        Err(ErrorView::Malformed("not a netCDF classic file"@))
    }
}

/// As much of the file as one buffer can hold.
pub open spec fn addressable(b: Seq<u8>) -> Seq<u8> {
    if b.len() > usize::MAX {
        b.take(usize::MAX as int)
    } else {
        b
    }
}

/// The variant and the header of a classic file.
pub open spec fn classic_of(image: Image) -> std::result::Result<
    (Container, HeaderView),
    ErrorView,
> {
    match image.fetch(0, 4) {
        Err(e) => Err(e),
        Ok(magic) => match variant_of(magic) {
            Err(e) => Err(e),
            Ok(container) => match value_of(header_at(addressable(image.bytes), 0, container)) {
                Err(e) => Err(e),
                Ok(header) => Ok((container, header)),
            },
        },
    }
}

fn variant(magic: &[u8]) -> (r: Result<Container>)
    requires
        magic@.len() == 4,
    ensures
        seen(r) == variant_of(magic@),
{
    let last: u8 = magic[3];
    if magic[0] == 0x43 && magic[1] == 0x44 && magic[2] == 0x46 {
        if last == 1 {
            assert(magic@ =~= seq![0x43u8, 0x44u8, 0x46u8, 1u8]);
            return Ok(Container::Cdf1);
        }
        if last == 2 {
            assert(magic@ =~= seq![0x43u8, 0x44u8, 0x46u8, 2u8]);
            return Ok(Container::Cdf2);
        }
        if last == 5 {
            assert(magic@ =~= seq![0x43u8, 0x44u8, 0x46u8, 5u8]);
            return Ok(Container::Cdf5);
        }
    }
    Err(Error::malformed("not a netCDF classic file"))
}

impl<S: ByteSource + ?Sized> ClassicFile<S> {
    /// What the header of the file said.
    pub open spec fn header(&self) -> HeaderView {
        HeaderView {
            dimensions: views(self.dimensions@),
            attributes: views(self.attributes@),
            variables: views(self.variables@),
            record_count: self.record_count,
            record_stride: self.record_stride,
        }
    }

    /// Open a classic file over any byte source.
    pub fn from_source(source: Arc<S>) -> (r: Result<Self>)
        ensures
            agrees(
                match r {
                    Ok(f) => Ok((f.container, f.header())),
                    Err(e) => Err(e@),
                },
                classic_of(source.image()),
                source.dependable() || source.image().bytes.len() < 4,
            ),
            r matches Ok(f) ==> f.source == source,
    {
        let magic = source.read_vec(0, 4)?;
        let container = variant(magic.as_slice())?;
        let size: u64 = source.size();
        let limit: usize = if size > usize::MAX as u64 { usize::MAX } else { size as usize };
        let ghost whole = addressable(source.image().bytes);
        // The header sits at the front and is small; read a generous window and
        // grow it if the header turns out to be longer.
        let mut window: usize = if limit < 65536 { limit } else { 65536 };
        loop
            invariant
                0 < window <= limit == whole.len(),
                whole == addressable(source.image().bytes),
                limit <= source.image().bytes.len(),
                source.image().fetch(0, 4) == std::result::Result::<_, ErrorView>::Ok(magic@),
                variant_of(magic@) == std::result::Result::<_, ErrorView>::Ok(container),
            decreases limit - window,
        {
            let buf = source.read_vec(0, window)?;
            proof {
                assert(buf@ =~= whole.take(window as int));
                a_prefix_is_enough(whole, window as int, container);
                if window == limit {
                    assert(whole.take(window as int) =~= whole);
                }
            }
            match Header::parse(buf.as_slice(), container) {
                Ok(header) => {
                    return Ok(
                        Self {
                            source,
                            container,
                            dimensions: header.dimensions,
                            attributes: header.attributes,
                            variables: header.variables,
                            record_count: header.record_count,
                            record_stride: header.record_stride,
                        },
                    );
                },
                Err(Error::OutOfBounds { what, offset, len, available }) => {
                    if window == limit {
                        return Err(Error::OutOfBounds { what, offset, len, available });
                    }
                    window = if window > limit / 4 { limit } else { window * 4 };
                },
                Err(e) => {
                    return Err(e);
                },
            }
        }
    }
}

// ── lookups ────────────────────────────────────────────────────────────────

impl Named for ClassicDimension {
    open spec fn called(&self) -> Seq<char> {
        self.name@
    }

    fn name(&self) -> (r: &String) {
        &self.name
    }
}

impl Named for ClassicAttribute {
    open spec fn called(&self) -> Seq<char> {
        self.name@
    }

    fn name(&self) -> (r: &String) {
        &self.name
    }
}

impl Named for ClassicVariable {
    open spec fn called(&self) -> Seq<char> {
        self.name@
    }

    fn name(&self) -> (r: &String) {
        &self.name
    }
}

impl ClassicVariable {
    /// Total number of elements.
    pub fn element_count(&self) -> (r: u64)
        requires
            product(self.shape@) <= u64::MAX,
        ensures
            r == product(self.shape@),
    {
        match checked_product(self.shape.as_slice()) {
            Some(n) => n,
            None => 0,
        }
    }

    /// An attribute by name.
    pub fn attribute(&self, name: &str) -> (r: Option<&ClassicAttribute>)
        ensures
            r == lookup(self.attributes@, name@),
    {
        find_named(&self.attributes, name)
    }
}

impl<S: ByteSource + ?Sized> ClassicFile<S> {
    /// A variable by name.
    pub fn variable(&self, name: &str) -> (r: Option<&ClassicVariable>)
        ensures
            r == lookup(self.variables@, name@),
    {
        find_named(&self.variables, name)
    }

    /// A dimension by name.
    pub fn dimension(&self, name: &str) -> (r: Option<&ClassicDimension>)
        ensures
            r == lookup(self.dimensions@, name@),
    {
        find_named(&self.dimensions, name)
    }

    /// A global attribute by name.
    pub fn attribute(&self, name: &str) -> (r: Option<&ClassicAttribute>)
        ensures
            r == lookup(self.attributes@, name@),
    {
        find_named(&self.attributes, name)
    }
}

// ── reading ────────────────────────────────────────────────────────────────

impl ClassicVariableView {
    /// Where the element at `index` lies.
    ///
    /// A fixed-size variable is one contiguous run. A record variable is
    /// strided: one record's worth, then a gap covering every other record
    /// variable, then the next record.
    pub open spec fn position(self, stride: u64, index: Seq<int>) -> int {
        self.begin + if self.is_record && self.shape.len() > 0 {
            index[0] * stride + ravel(index.skip(1), self.shape.skip(1)) * width_of(self.nc_type)
        } else {
            ravel(index, self.shape) * width_of(self.nc_type)
        }
    }

    /// Whether every element stands alone, a whole record apart from the next.
    pub open spec fn scattered(self) -> bool {
        self.shape.len() == 0 || (self.is_record && self.shape.len() == 1)
    }

    /// The axes over which a selection takes one run of elements each.
    pub open spec fn outer(self, slab: SlabView) -> Seq<u64> {
        if self.scattered() {
            slab.count
        } else {
            slab.count.drop_last()
        }
    }

    /// How many elements one run takes.
    pub open spec fn run(self, slab: SlabView) -> nat {
        if self.scattered() {
            1
        } else {
            slab.count.last() as nat
        }
    }

    /// The index of the first element of run number `t`.
    pub open spec fn run_index(self, slab: SlabView, t: int) -> Seq<int> {
        let outer = unravel(t, self.outer(slab));
        Seq::new(
            self.shape.len(),
            |a: int|
                slab.start[a] + if a < outer.len() {
                    outer[a]
                } else {
                    0
                },
        )
    }
}

/// The bytes of the runs from number `t` on, after those in `out`.
pub open spec fn runs_from(
    image: Image,
    v: ClassicVariableView,
    stride: u64,
    slab: SlabView,
    t: int,
    out: Seq<u8>,
) -> std::result::Result<Seq<u8>, ErrorView>
    decreases product(v.outer(slab)) - t,
{
    if t >= product(v.outer(slab)) {
        Ok(out)
    } else {
        let position = v.position(stride, v.run_index(slab, t));
        if position > u64::MAX {
            Err(ErrorView::Malformed("variable data past what 64 bits can address"@))
        } else {
            match image.fetch(position, (v.run(slab) * width_of(v.nc_type)) as int) {
                Err(e) => Err(e),
                Ok(bytes) => runs_from(image, v, stride, slab, t + 1, out + bytes),
            }
        }
    }
}

/// What a selection of a variable holds, row by row, each value with its least
/// significant byte first.
pub open spec fn selection_of(
    image: Image,
    v: ClassicVariableView,
    stride: u64,
    slab: SlabView,
) -> std::result::Result<Seq<u8>, ErrorView> {
    match slab.checked(v.shape) {
        Err(e) => Err(e),
        Ok(_) => if product(slab.count) * width_of(v.nc_type) > usize::MAX || product(
            v.outer(slab),
        ) > u64::MAX {
            Err(ErrorView::BadRequest("selection is too large"@))
        } else {
            match runs_from(image, v, stride, slab, 0, Seq::empty()) {
                Err(e) => Err(e),
                Ok(raw) => Ok(reversed_elements(raw, width_of(v.nc_type))),
            }
        },
    }
}

/// Whether reading a selection of a variable reads anything: it is accepted, and its
/// first run lies in the file.
pub open spec fn selection_reads(
    image: Image,
    v: ClassicVariableView,
    stride: u64,
    slab: SlabView,
) -> bool {
    let position = v.position(stride, v.run_index(slab, 0));
    &&& slab.checked(v.shape) is Ok
    &&& product(slab.count) * width_of(v.nc_type) <= usize::MAX
    &&& 0 < product(v.outer(slab)) <= u64::MAX
    &&& position <= u64::MAX
    &&& image.fetch(position, (v.run(slab) * width_of(v.nc_type)) as int) is Ok
}

impl ClassicVariable {
    /// Where the element at `index` lies, where 64 bits can say it.
    fn position(&self, stride: u64, index: &[u64]) -> (r: Option<u64>)
        requires
            index@.len() == self.shape@.len(),
        ensures
            match r {
                Some(p) => p == self@.position(stride, integers(index@)),
                None => self@.position(stride, integers(index@)) > u64::MAX,
            },
    {
        let width: u64 = self.nc_type.size() as u64;
        let ghost full = integers(index@);
        let records: bool = self.is_record && self.shape.len() > 0;
        let from: usize = if records { 1 } else { 0 };
        let inner = slice_subrange(index, from, index.len());
        let inner_shape = slice_subrange(self.shape.as_slice(), from, self.shape.len());
        proof {
            assert(integers(inner@) =~= full.skip(from as int));
            assert(inner_shape@ =~= self.shape@.skip(from as int));
            assert(full.skip(0) =~= full);
            assert(self.shape@.skip(0) =~= self.shape@);
            lemma_ravel_nonnegative(integers(inner@), inner_shape@);
        }
        let ghost k = ravel(integers(inner@), inner_shape@);
        let ghost base = if records {
            full[0] * stride
        } else {
            0
        };
        proof {
            assert(records ==> full[0] * stride >= 0) by (nonlinear_arith)
                requires
                    records ==> full[0] >= 0,
            ;
            assert(k * width >= k) by (nonlinear_arith)
                requires
                    k >= 0,
                    width >= 1,
            ;
            assert(self@.position(stride, full) == self.begin + base + k * width);
        }
        let base: u64 = if records {
            match index[0].checked_mul(stride) {
                Some(b) => b,
                None => {
                    return None;
                },
            }
        } else {
            0
        };
        match number_of(inner, inner_shape) {
            None => None,
            Some(n) => match n.checked_mul(width) {
                None => None,
                Some(offset) => match self.begin.checked_add(base) {
                    None => None,
                    Some(p) => p.checked_add(offset),
                },
            },
        }
    }

    /// The index of the first element of run number `t`.
    fn run_index(&self, slab: &Hyperslab, outer: &[u64], t: u64) -> (r: Vec<u64>)
        requires
            slab@.within(self.shape@),
            outer@ == self@.outer(slab@),
            t < product(outer@),
        ensures
            r@.len() == self.shape@.len(),
            integers(r@) == self@.run_index(slab@, t as int),
    {
        let along = index_of(t, outer);
        let ghost digits = unravel(t as int, outer@);
        proof {
            every_element_has_an_index(t as int, outer@);
        }
        let mut out: Vec<u64> = Vec::new();
        while out.len() < self.shape.len()
            invariant
                slab@.within(self.shape@),
                outer@ == self@.outer(slab@),
                digits == unravel(t as int, outer@),
                inside(digits, outer@),
                integers(along@) == digits,
                along@.len() == outer@.len(),
                out@.len() <= self.shape@.len(),
                integers(out@) == self@.run_index(slab@, t as int).take(out@.len() as int),
            decreases self.shape@.len() - out@.len(),
        {
            let a: usize = out.len();
            let step: u64 = if a < along.len() {
                proof {
                    assert(along@[a as int] == integers(along@)[a as int]);
                    assert(digits[a as int] < outer@[a as int]);
                    assert(outer@[a as int] == slab@.count[a as int]);
                }
                along[a]
            } else {
                0
            };
            assert(slab@.start[a as int] + slab@.count[a as int] <= self.shape@[a as int]);
            out.push(slab.start[a] + step);
            assert(integers(out@) =~= self@.run_index(slab@, t as int).take(out@.len() as int));
        }
        assert(integers(out@) =~= self@.run_index(slab@, t as int));
        out
    }
}

proof fn lemma_width_positive(t: NcType)
    ensures
        1 <= width_of(t) <= 8,
{
}

/// A run takes no more elements than the whole selection, if there is a run.
proof fn lemma_run_fits(v: ClassicVariableView, slab: SlabView)
    requires
        slab.count.len() == v.shape.len(),
    ensures
        product(v.outer(slab)) * v.run(slab) == product(slab.count),
        product(v.outer(slab)) > 0 ==> v.run(slab) <= product(slab.count),
{
    if v.scattered() {
        assert(product(slab.count) * 1 == product(slab.count)) by (nonlinear_arith);
    }
    let (t, n) = (product(v.outer(slab)), v.run(slab));
    assert(t > 0 ==> n <= t * n) by (nonlinear_arith);
}

impl<S: ByteSource + ?Sized> ClassicFile<S> {
    /// Read a whole variable, in row-major order, each value with its least
    /// significant byte first.
    pub fn read(&self, variable: &ClassicVariable) -> (r: Result<Vec<u8>>)
        ensures
            agrees(
                seen(r),
                selection_of(
                    self.source.image(),
                    variable@,
                    self.record_stride,
                    whole_of(variable.shape@),
                ),
                self.source.dependable() || !selection_reads(
                    self.source.image(),
                    variable@,
                    self.record_stride,
                    whole_of(variable.shape@),
                ),
            ),
    {
        self.read_selection(variable, &Hyperslab::all(variable.shape.as_slice()))
    }

    /// Read a hyperslab of a variable.
    pub fn read_selection(&self, variable: &ClassicVariable, slab: &Hyperslab) -> (r: Result<
        Vec<u8>,
    >)
        ensures
            agrees(
                seen(r),
                selection_of(self.source.image(), variable@, self.record_stride, slab@),
                self.source.dependable() || !selection_reads(
                    self.source.image(),
                    variable@,
                    self.record_stride,
                    slab@,
                ),
            ),
    {
        self.read_selection_with(&*self.source, variable, slab)
    }

    /// Read a selection through another byte source.
    ///
    /// The parsed header stays. Only the bytes come from somewhere else. The
    /// asynchronous engine uses this to serve a read from pages it holds.
    pub fn read_selection_with<T: ByteSource + ?Sized>(
        &self,
        source: &T,
        variable: &ClassicVariable,
        slab: &Hyperslab,
    ) -> (r: Result<Vec<u8>>)
        ensures
            agrees(
                seen(r),
                selection_of(source.image(), variable@, self.record_stride, slab@),
                source.dependable() || !selection_reads(
                    source.image(),
                    variable@,
                    self.record_stride,
                    slab@,
                ),
            ),
    {
        slab.validate(variable.shape.as_slice())?;
        let ghost v = variable@;
        let ghost stride = self.record_stride;
        proof {
            checked_selections_lie_within(slab@, v.shape);
            lemma_width_positive(v.nc_type);
        }
        let width: usize = variable.nc_type.size();
        let rank: usize = variable.shape.len();
        let scattered: bool = rank == 0 || (variable.is_record && rank == 1);
        let outer = slice_subrange(
            slab.count.as_slice(),
            0,
            if scattered { rank } else { rank - 1 },
        );
        assert(outer@ =~= v.outer(slab@));
        let total: Option<u64> = slab.element_count();
        let runs: Option<u64> = checked_product(outer);
        proof {
            let n = product(slab@.count);
            assert(n * width >= n) by (nonlinear_arith)
                requires
                    width >= 1,
            ;
            lemma_run_fits(v, slab@);
        }
        let (total, runs): (u64, u64) = match (total, runs) {
            (Some(total), Some(runs)) => (total, runs),
            _ => {
                return Err(Error::bad_request("selection is too large"));
            },
        };
        match total.checked_mul(width as u64) {
            Some(n) if n <= usize::MAX as u64 => {},
            _ => {
                return Err(Error::bad_request("selection is too large"));
            },
        }
        let run: u64 = if scattered { 1 } else { slab.count[rank - 1] };
        proof {
            let n = product(slab@.count);
            assert(runs > 0 ==> run * width <= n * width) by (nonlinear_arith)
                requires
                    runs > 0 ==> run <= n,
            ;
        }
        let ghost want = runs_from(source.image(), v, stride, slab@, 0, Seq::empty());
        let mut raw: Vec<u8> = Vec::new();
        let mut t: u64 = 0;
        assert(0nat % width as nat == 0);
        while t < runs
            invariant
                v == variable@,
                stride == self.record_stride,
                slab@.within(v.shape),
                slab@.checked(v.shape) is Ok,
                width == width_of(v.nc_type),
                1 <= width,
                outer@ == v.outer(slab@),
                runs == product(outer@),
                run == v.run(slab@),
                runs > 0 ==> run * width <= product(slab@.count) * width <= usize::MAX,
                product(slab@.count) * width <= usize::MAX,
                t <= runs,
                raw@.len() % width as nat == 0,
                want == runs_from(source.image(), v, stride, slab@, 0, Seq::empty()),
                want == runs_from(source.image(), v, stride, slab@, t as int, raw@),
                runs <= u64::MAX,
                t > 0 ==> selection_reads(source.image(), v, stride, slab@),
            decreases runs - t,
        {
            let index = variable.run_index(slab, outer, t);
            let at: u64 = match variable.position(self.record_stride, index.as_slice()) {
                Some(p) => p,
                None => {
                    return Err(Error::malformed("variable data past what 64 bits can address"));
                },
            };
            let ghost before = raw@;
            let mut bytes = source.read_vec(at, run as usize * width)?;
            proof {
                let (a, b, w) = (before.len() as int, run as int, width as int);
                lemma_fundamental_div_mod(a, w);
                let q = a / w;
                assert(a + b * w == (q + b) * w + 0) by (nonlinear_arith)
                    requires
                        a == w * q,
                ;
                lemma_fundamental_div_mod_converse(
                    a + b * w,
                    w,
                    q + b,
                    0,
                );
            }
            raw.append(&mut bytes);
            t = t + 1;
        }
        // Classic files are always big-endian.
        Ok(reverse_elements(&raw, width))
    }
}

// ── text ───────────────────────────────────────────────────────────────────

/// The text of one row: up to the first NUL, without the spaces before it.
pub open spec fn row_text(row: Seq<u8>) -> Seq<char> {
    utf8_lossy(without_trailing_spaces(row.take(first_zero(row, 0))))
}

/// The rows of `width` bytes from `p` on, after those in `out`. The last row
/// may be shorter.
pub open spec fn rows_from(
    b: Seq<u8>,
    width: u64,
    p: int,
    out: Seq<Seq<char>>,
) -> Seq<Seq<char>>
    decreases b.len() - p,
{
    if p >= b.len() || width == 0 {
        out
    } else {
        let end = if b.len() - p < width {
            b.len() as int
        } else {
            p + width
        };
        rows_from(b, width, end, out.push(row_text(b.subrange(p, end))))
    }
}

/// The strings of a `char` variable, one for each row of its last axis.
pub open spec fn strings_of(image: Image, v: ClassicVariableView, stride: u64) -> std::result::Result<
    Seq<Seq<char>>,
    ErrorView,
> {
    if !(v.nc_type is Char) {
        Err(
            ErrorView::Unsupported("variable "@ + v.name + " is not a character variable"@),
        )
    } else {
        match selection_of(image, v, stride, whole_of(v.shape)) {
            Err(e) => Err(e),
            Ok(bytes) => Ok(
                rows_from(
                    bytes,
                    if v.shape.len() == 0 {
                        1
                    } else {
                        v.shape.last()
                    },
                    0,
                    Seq::empty(),
                ),
            ),
        }
    }
}

fn text_of_row(row: &[u8]) -> (r: String)
    ensures
        r@ == row_text(row@),
{
    let end: usize = position_of_zero(row, 0);
    proof {
        lemma_first_zero(row@, 0);
    }
    let text = slice_subrange(row, 0, end);
    assert(text@ =~= row@.take(end as int));
    let keep: usize = trimmed_len(text);
    let kept = slice_subrange(text, 0, keep);
    assert(kept@ =~= text@.take(keep as int));
    lossy_text(kept)
}

/// The rows of `width` bytes, each as text.
pub fn text_rows(b: &[u8], width: u64) -> (r: Vec<String>)
    ensures
        views(r@) == rows_from(b@, width, 0, Seq::empty()),
{
    let mut out: Vec<String> = Vec::new();
    if width == 0 {
        return out;
    }
    let mut p: usize = 0;
    while p < b.len()
        invariant
            p <= b@.len(),
            width > 0,
            rows_from(b@, width, 0, Seq::empty()) == rows_from(b@, width, p as int, views(out@)),
        decreases b@.len() - p,
    {
        let end: usize = if ((b.len() - p) as u64) < width {
            b.len()
        } else {
            p + width as usize
        };
        out.push(text_of_row(slice_subrange(b, p, end)));
        p = end;
    }
    out
}

impl<S: ByteSource + ?Sized> ClassicFile<S> {
    /// Read a variable and widen it to 64-bit floats.
    pub fn read_f64(&self, variable: &ClassicVariable) -> (r: Result<Vec<F64>>)
        ensures
            agrees(
                match r {
                    Ok(v) => Ok(v@),
                    Err(e) => Err(e@),
                },
                match selection_of(
                    self.source.image(),
                    variable@,
                    self.record_stride,
                    whole_of(variable.shape@),
                ) {
                    Ok(bytes) => Ok(widened(bytes, variable.nc_type)),
                    Err(e) => Err(e),
                },
                self.source.dependable() || !selection_reads(
                    self.source.image(),
                    variable@,
                    self.record_stride,
                    whole_of(variable.shape@),
                ),
            ),
    {
        let bytes = self.read(variable)?;
        Ok(decode_numbers(bytes.as_slice(), variable.nc_type))
    }

    /// Read a `char` variable as one string per row of the last axis.
    pub fn read_strings(&self, variable: &ClassicVariable) -> (r: Result<Vec<String>>)
        ensures
            agrees(
                match r {
                    Ok(v) => Ok(views(v@)),
                    Err(e) => Err(e@),
                },
                strings_of(self.source.image(), variable@, self.record_stride),
                self.source.dependable() || !(variable.nc_type is Char && selection_reads(
                    self.source.image(),
                    variable@,
                    self.record_stride,
                    whole_of(variable.shape@),
                )),
            ),
    {
        if variable.nc_type != NcType::Char {
            let m = joined("variable ", variable.name.as_str());
            return Err(Error::Unsupported(add_text(m, " is not a character variable")));
        }
        let bytes = self.read(variable)?;
        let rank: usize = variable.shape.len();
        let width: u64 = if rank == 0 { 1 } else { variable.shape[rank - 1] };
        Ok(text_rows(bytes.as_slice(), width))
    }
}

// ── what a selection holds ─────────────────────────────────────────────────

proof fn lemma_position_nonnegative(v: ClassicVariableView, stride: u64, index: Seq<int>)
    requires
        index.len() == v.shape.len(),
        forall|a: int| 0 <= a < index.len() ==> 0 <= #[trigger] index[a],
    ensures
        0 <= v.position(stride, index),
{
    let w = width_of(v.nc_type) as int;
    if v.is_record && v.shape.len() > 0 {
        let inner = index.skip(1);
        assert forall|a: int| 0 <= a < inner.len() implies 0 <= #[trigger] inner[a] by {
            assert(inner[a] == index[a + 1]);
        }
        lemma_ravel_nonnegative(inner, v.shape.skip(1));
        let (i, k) = (index[0], ravel(inner, v.shape.skip(1)));
        assert(0 <= i * stride && 0 <= k * w) by (nonlinear_arith)
            requires
                0 <= i,
                0 <= k,
                0 <= w,
        ;
    } else {
        lemma_ravel_nonnegative(index, v.shape);
        let k = ravel(index, v.shape);
        assert(0 <= k * w) by (nonlinear_arith)
            requires
                0 <= k,
                0 <= w,
        ;
    }
}

proof fn lemma_run_position(v: ClassicVariableView, stride: u64, slab: SlabView, t: int)
    requires
        slab.within(v.shape),
        0 <= t < product(v.outer(slab)),
    ensures
        0 <= v.position(stride, v.run_index(slab, t)),
{
    every_element_has_an_index(t, v.outer(slab));
    lemma_position_nonnegative(v, stride, v.run_index(slab, t));
}

/// The bytes of run `t` as the runs hold them.
proof fn lemma_runs(
    image: Image,
    v: ClassicVariableView,
    stride: u64,
    slab: SlabView,
    t: int,
    out: Seq<u8>,
    raw: Seq<u8>,
)
    requires
        slab.within(v.shape),
        0 <= t <= product(v.outer(slab)),
        runs_from(image, v, stride, slab, t, out) == std::result::Result::<Seq<u8>, ErrorView>::Ok(
            raw,
        ),
        out.len() == t * (v.run(slab) * width_of(v.nc_type)),
    ensures
        raw.len() == product(v.outer(slab)) * (v.run(slab) * width_of(v.nc_type)),
        out.len() <= raw.len(),
        forall|i: int| 0 <= i < out.len() ==> raw[i] == out[i],
        forall|s: int, m: int|
            t <= s < product(v.outer(slab)) && 0 <= m < v.run(slab) * width_of(v.nc_type) ==> {
                &&& #[trigger] raw[s * (v.run(slab) * width_of(v.nc_type)) + m]
                    == image.bytes[v.position(stride, v.run_index(slab, s)) + m]
                &&& v.position(stride, v.run_index(slab, s)) + m < image.bytes.len()
            },
    decreases product(v.outer(slab)) - t,
{
    let len = v.run(slab) * width_of(v.nc_type);
    if t < product(v.outer(slab)) {
        let position = v.position(stride, v.run_index(slab, t));
        let bytes = image.bytes.subrange(position, position + len);
        lemma_run_position(v, stride, slab, t);
        assert((t + 1) * len == t * len + len) by (nonlinear_arith);
        lemma_runs(image, v, stride, slab, t + 1, out + bytes, raw);
        assert forall|s: int, m: int|
            t <= s < product(v.outer(slab)) && 0 <= m < len implies {
            &&& #[trigger] raw[s * len + m] == image.bytes[v.position(
                stride,
                v.run_index(slab, s),
            ) + m]
            &&& v.position(stride, v.run_index(slab, s)) + m < image.bytes.len()
        } by {
            if s == t {
                assert(raw[t * len + m] == (out + bytes)[t * len + m]);
            }
        }
    }
}

/// Element `j` of run `t` is element `t * run + j` of the selection, and lies
/// `j` elements behind the start of the run.
proof fn lemma_run_element(v: ClassicVariableView, stride: u64, slab: SlabView, t: int, j: int)
    requires
        slab.within(v.shape),
        0 <= t < product(v.outer(slab)),
        0 <= j < v.run(slab),
    ensures
        v.position(stride, selected_index(slab, t * v.run(slab) + j)) == v.position(
            stride,
            v.run_index(slab, t),
        ) + j * width_of(v.nc_type),
{
    let w = width_of(v.nc_type) as int;
    let rank = v.shape.len() as int;
    let first = v.run_index(slab, t);
    let k = t * v.run(slab) + j;
    let index = selected_index(slab, k);
    if v.scattered() {
        assert(t * 1 == t) by (nonlinear_arith);
        assert(0 * w == 0) by (nonlinear_arith);
        every_element_has_an_index(t, slab.count);
        assert(index =~= first);
    } else {
        let n = v.run(slab) as int;
        lemma_fundamental_div_mod_converse(k, n, t, j);
        let along = unravel(t, v.outer(slab));
        every_element_has_an_index(t, v.outer(slab));
        assert(unravel(k, slab.count) =~= along.push(j));
        assert(index =~= first.drop_last().push(first.last() + j));
        let (shape, from) = if v.is_record {
            (v.shape.skip(1), first.skip(1))
        } else {
            (v.shape, first)
        };
        let to = if v.is_record {
            index.skip(1)
        } else {
            index
        };
        assert(to =~= from.drop_last().push(from.last() + j));
        assert(to.drop_last() =~= from.drop_last());
        assert(ravel(to, shape) == ravel(from, shape) + j);
        let m = ravel(from, shape);
        assert((m + j) * w == m * w + j * w) by (nonlinear_arith);
    }
}

/// What a read hands out: every element of the selection in row-major order,
/// each taken from where it lies in the file, with its bytes turned round.
pub proof fn a_read_gives_every_selected_element(
    image: Image,
    v: ClassicVariableView,
    stride: u64,
    slab: SlabView,
    k: int,
    j: int,
)
    requires
        selection_of(image, v, stride, slab) is Ok,
        0 <= k < product(slab.count),
        0 <= j < width_of(v.nc_type),
    ensures
        ({
            let out = selection_of(image, v, stride, slab)->Ok_0;
            let w = width_of(v.nc_type);
            let p = v.position(stride, selected_index(slab, k));
            &&& out.len() == product(slab.count) * w
            &&& k * w + j < out.len()
            &&& 0 <= p
            &&& p + w <= image.bytes.len()
            &&& out[k * w + j] == image.bytes[p + (w - 1 - j)]
        }),
{
    checked_selections_lie_within(slab, v.shape);
    let w = width_of(v.nc_type) as int;
    let n = v.run(slab) as int;
    let runs = product(v.outer(slab)) as int;
    let raw = runs_from(image, v, stride, slab, 0, Seq::empty())->Ok_0;
    assert(0 * (n * w) == 0) by (nonlinear_arith);
    lemma_runs(image, v, stride, slab, 0, Seq::empty(), raw);
    lemma_run_fits(v, slab);
    assert(n > 0) by (nonlinear_arith)
        requires
            0 <= k < runs * n,
            0 <= runs,
            0 <= n,
    ;
    lemma_fundamental_div_mod(k, n);
    let (t, i) = (k / n, k % n);
    assert(0 <= t < runs && k == t * n + i) by (nonlinear_arith)
        requires
            0 <= k < runs * n,
            k == n * t + i,
            0 <= i < n,
    ;
    lemma_run_element(v, stride, slab, t, i);
    lemma_run_position(v, stride, slab, t);
    let start = v.position(stride, v.run_index(slab, t));
    let flip = w - 1 - j;
    assert(0 <= i * w + flip < n * w && 0 <= i * w + w - 1 < n * w) by (nonlinear_arith)
        requires
            0 <= i < n,
            0 <= flip < w,
    ;
    assert(raw[t * (n * w) + (i * w + flip)] == image.bytes[start + (i * w + flip)]);
    assert(raw[t * (n * w) + (i * w + w - 1)] == image.bytes[start + (i * w + w - 1)]);
    assert(t * (n * w) + (i * w + flip) == k * w + flip) by (nonlinear_arith)
        requires
            k == t * n + i,
    ;
    assert(runs * (n * w) == product(slab.count) * w) by (nonlinear_arith)
        requires
            runs * n == product(slab.count),
    ;
    let total = product(slab.count) as int;
    assert(0 <= k * w && k * w + w <= total * w) by (nonlinear_arith)
        requires
            0 <= k,
            k + 1 <= total,
            0 < w,
    ;
    lemma_fundamental_div_mod_converse(k * w + j, w, k, j);
    assert(0 <= i * w) by (nonlinear_arith)
        requires
            0 <= i,
            0 <= w,
    ;
}

/// Reading a part of a variable and cutting the same part out of the whole
/// give the same bytes.
pub proof fn a_slice_agrees_with_the_whole(
    image: Image,
    v: ClassicVariableView,
    stride: u64,
    slab: SlabView,
    k: int,
    j: int,
)
    requires
        selection_of(image, v, stride, slab) is Ok,
        selection_of(image, v, stride, whole_of(v.shape)) is Ok,
        0 <= k < product(slab.count),
        0 <= j < width_of(v.nc_type),
    ensures
        ({
            let part = selection_of(image, v, stride, slab)->Ok_0;
            let whole = selection_of(image, v, stride, whole_of(v.shape))->Ok_0;
            let w = width_of(v.nc_type);
            let at = ravel(selected_index(slab, k), v.shape);
            part[k * w + j] == whole[at * w + j]
        }),
{
    checked_selections_lie_within(slab, v.shape);
    every_element_has_an_index(k, slab.count);
    let index = selected_index(slab, k);
    let digits = unravel(k, slab.count);
    assert forall|a: int| 0 <= a < v.shape.len() implies 0 <= #[trigger] index[a] < v.shape[a] by {
        assert(0 <= digits[a] < slab.count[a]);
        assert(slab.start[a] + slab.count[a] <= v.shape[a]);
    }
    every_index_has_an_element(index, v.shape);
    let at = ravel(index, v.shape);
    assert(selected_index(whole_of(v.shape), at) =~= index);
    a_read_gives_every_selected_element(image, v, stride, slab, k, j);
    a_read_gives_every_selected_element(image, v, stride, whole_of(v.shape), at, j);
}

/// The runs of a selection can all be read, from number `t` on.
proof fn lemma_runs_readable(
    image: Image,
    v: ClassicVariableView,
    stride: u64,
    slab: SlabView,
    t: int,
    out: Seq<u8>,
)
    requires
        image.bytes.len() <= u64::MAX,
        slab.within(v.shape),
        forall|a: int| 0 <= a < slab.count.len() ==> #[trigger] slab.count[a] > 0,
        selection_of(image, v, stride, whole_of(v.shape)) is Ok,
        0 <= t <= product(v.outer(slab)),
    ensures
        runs_from(image, v, stride, slab, t, out) is Ok,
    decreases product(v.outer(slab)) - t,
{
    if t < product(v.outer(slab)) {
        let w = width_of(v.nc_type) as int;
        let n = v.run(slab) as int;
        if !v.scattered() {
            assert(slab.count[slab.count.len() - 1] > 0);
        }
        lemma_run_fits(v, slab);
        lemma_run_position(v, stride, slab, t);
        lemma_run_element(v, stride, slab, t, n - 1);
        let k = t * n + (n - 1);
        let runs = product(v.outer(slab)) as int;
        assert(0 <= k < runs * n) by (nonlinear_arith)
            requires
                0 <= t < runs,
                0 < n,
                k == t * n + (n - 1),
        ;
        every_element_has_an_index(k, slab.count);
        let index = selected_index(slab, k);
        let digits = unravel(k, slab.count);
        assert forall|a: int| 0 <= a < v.shape.len() implies 0 <= #[trigger] index[a]
            < v.shape[a] by {
            assert(0 <= digits[a] < slab.count[a]);
            assert(slab.start[a] + slab.count[a] <= v.shape[a]);
        }
        every_index_has_an_element(index, v.shape);
        let at = ravel(index, v.shape);
        assert(selected_index(whole_of(v.shape), at) =~= index);
        a_read_gives_every_selected_element(image, v, stride, whole_of(v.shape), at, 0);
        let start = v.position(stride, v.run_index(slab, t));
        assert((n - 1) * w + w == n * w) by (nonlinear_arith);
        assert(0 <= n * w) by (nonlinear_arith)
            requires
                0 <= n,
                0 <= w,
        ;
        assert(start + n * w <= image.bytes.len());
        let bytes = image.bytes.subrange(start, start + n * w);
        lemma_runs_readable(image, v, stride, slab, t + 1, out + bytes);
    }
}

/// Where a whole variable can be read, so can every part of it that holds
/// something.
pub proof fn a_part_of_a_readable_variable_is_readable(
    image: Image,
    v: ClassicVariableView,
    stride: u64,
    slab: SlabView,
)
    requires
        image.bytes.len() <= u64::MAX,
        slab.within(v.shape),
        forall|a: int| 0 <= a < slab.count.len() ==> #[trigger] slab.count[a] > 0,
        selection_of(image, v, stride, whole_of(v.shape)) is Ok,
    ensures
        selection_of(image, v, stride, slab) is Ok,
{
    checked_selections_lie_within(slab, v.shape);
    let w = width_of(v.nc_type) as int;
    assert forall|a: int| 0 <= a < slab.count.len() implies #[trigger] slab.count[a]
        <= v.shape[a] by {
        assert(slab.start[a] + slab.count[a] <= v.shape[a]);
    }
    lemma_product_monotonic(slab.count, v.shape);
    lemma_run_fits(v, slab);
    let (part, all) = (product(slab.count) as int, product(v.shape) as int);
    assert(part * w <= all * w && part <= part * w) by (nonlinear_arith)
        requires
            0 <= part <= all,
            1 <= w,
    ;
    let (runs, n) = (product(v.outer(slab)) as int, v.run(slab) as int);
    if !v.scattered() {
        assert(slab.count[slab.count.len() - 1] > 0);
    }
    assert(runs <= runs * n) by (nonlinear_arith)
        requires
            0 <= runs,
            1 <= n,
    ;
    lemma_runs_readable(image, v, stride, slab, 0, Seq::empty());
}

} // verus!
