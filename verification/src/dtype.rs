//! Element types.
//!
//! The vocabulary is netCDF's, because that is what a caller asks for. The
//! mapping onto HDF5 is in [`DType::of`].

use vstd::prelude::*;
use vstd::string::*;

#[allow(unused_imports)]
use crate::message::datatype::{ClassView, DatatypeView};
use crate::message::datatype::{Datatype, DatatypeClass, VlenKind};
use crate::text::{add_text, joined, numbered};
#[allow(unused_imports)]
use crate::text::decimal;

verus! {

/// A variable's netCDF type.
///
/// Not `Copy`: a ragged array carries its element type.
#[derive(Debug, PartialEq, Eq)]
pub enum DType {
    /// Signed integer of the given width in bytes. netCDF `byte`, `short`,
    /// `int` and `int64`.
    Int(u8),
    /// Unsigned integer of the given width in bytes. netCDF `ubyte`, `ushort`,
    /// `uint` and `uint64`.
    Uint(u8),
    /// IEEE float of the given width in bytes. netCDF `float` and `double`.
    Float(u8),
    /// netCDF `char`. One byte for each element.
    ///
    /// A `char` variable holds text across its last dimension. So
    /// `char name(casts, strnlen)` holds one string for each cast. The last
    /// dimension is the string length.
    ///
    /// This reader reports the elements as the file stores them. Join that axis
    /// yourself.
    Char,
    /// netCDF `string`. One variable-length string for each element, held in
    /// the global heap.
    String,
    /// A fixed-length string wider than one byte.
    ///
    /// netcdf-c never writes this. Another HDF5 writer may. One string sits in
    /// each element, and the dataspace already excludes the width.
    FixedString(u32),
    /// A ragged array of a base type, held in the global heap.
    Vlen(Box<DType>),
    /// Something this summary does not model.
    Other,
}

/// The netCDF type of an HDF5 datatype. netcdf-c writes `char` as a one-byte
/// HDF5 string and puts the length in the dataspace; any wider fixed string is
/// not netCDF. An integer or float keeps the low byte of its size.
pub open spec fn dtype_of(d: DatatypeView) -> DType
    decreases d,
{
    match d.class {
        ClassView::FixedPoint { signed, .. } => if signed {
            DType::Int(d.size as u8)
        } else {
            DType::Uint(d.size as u8)
        },
        ClassView::FloatingPoint { .. } => DType::Float(d.size as u8),
        ClassView::String { .. } => if d.size == 1 {
            DType::Char
        } else {
            DType::FixedString(d.size)
        },
        ClassView::VariableLength { kind, base, .. } => match kind {
            VlenKind::String => DType::String,
            VlenKind::Sequence => DType::Vlen(Box::new(dtype_of(*base))),
        },
        _ => DType::Other,
    }
}

/// The netCDF name of a type.
pub open spec fn dtype_name(t: DType) -> Seq<char>
    decreases t,
{
    match t {
        DType::Int(n) => if n == 1 {
            "i8"@
        } else if n == 2 {
            "i16"@
        } else if n == 4 {
            "i32"@
        } else if n == 8 {
            "i64"@
        } else {
            "a "@ + decimal(n as nat) + "-byte signed integer"@
        },
        DType::Uint(n) => if n == 1 {
            "u8"@
        } else if n == 2 {
            "u16"@
        } else if n == 4 {
            "u32"@
        } else if n == 8 {
            "u64"@
        } else {
            "a "@ + decimal(n as nat) + "-byte unsigned integer"@
        },
        DType::Float(n) => if n == 4 {
            "f32"@
        } else if n == 8 {
            "f64"@
        } else {
            "a "@ + decimal(n as nat) + "-byte float"@
        },
        DType::Char => "char"@,
        DType::String => "string"@,
        DType::FixedString(n) => "a "@ + decimal(n as nat) + "-byte fixed string"@,
        DType::Vlen(base) => "a ragged array of "@ + dtype_name(*base),
        DType::Other => "a type this reader does not model"@,
    }
}

impl DType {
    /// The netCDF type of an HDF5 datatype.
    pub fn of(datatype: &Datatype) -> (r: Self)
        ensures
            r == dtype_of(datatype@),
        decreases *datatype,
    {
        let size: u32 = datatype.size;
        match &datatype.class {
            DatatypeClass::FixedPoint { signed, .. } => if *signed {
                DType::Int(size as u8)
            } else {
                DType::Uint(size as u8)
            },
            DatatypeClass::FloatingPoint { .. } => DType::Float(size as u8),
            // netcdf-c writes `char` as a one-byte HDF5 string and puts the
            // length in the dataspace. Any wider fixed string is not netCDF.
            DatatypeClass::String { .. } => if size == 1 {
                DType::Char
            } else {
                DType::FixedString(size)
            },
            DatatypeClass::VariableLength { kind, base, .. } => match kind {
                VlenKind::String => DType::String,
                VlenKind::Sequence => DType::Vlen(Box::new(DType::of(base))),
            },
            _ => DType::Other,
        }
    }

    /// Whether this is an integer type. `char` is not one.
    pub fn is_integer(&self) -> (r: bool)
        ensures
            r == (self is Int || self is Uint),
    {
        match self {
            DType::Int(_) => true,
            DType::Uint(_) => true,
            _ => false,
        }
    }

    /// Whether this is a floating-point type.
    pub fn is_float(&self) -> (r: bool)
        ensures
            r == (self is Float),
    {
        match self {
            DType::Float(_) => true,
            _ => false,
        }
    }

    /// Whether this type holds text.
    pub fn is_text(&self) -> (r: bool)
        ensures
            r == (self is Char || self is String || self is FixedString),
    {
        match self {
            DType::Char => true,
            DType::String => true,
            DType::FixedString(_) => true,
            _ => false,
        }
    }

    /// Size of one element in bytes, where the type has a fixed one.
    ///
    /// A [`DType::String`] has no fixed size: the value lives in a heap.
    pub fn size(&self) -> (r: Option<usize>)
        ensures
            r == match *self {
                DType::Int(n) => Some(n as usize),
                DType::Uint(n) => Some(n as usize),
                DType::Float(n) => Some(n as usize),
                DType::Char => Some(1usize),
                DType::FixedString(n) => Some(n as usize),
                DType::String => None,
                DType::Vlen(_) => None,
                DType::Other => None,
            },
    {
        match self {
            DType::Int(n) => Some(*n as usize),
            DType::Uint(n) => Some(*n as usize),
            DType::Float(n) => Some(*n as usize),
            DType::Char => Some(1),
            DType::FixedString(n) => Some(*n as usize),
            DType::String => None,
            DType::Vlen(_) => None,
            DType::Other => None,
        }
    }

    /// The netCDF name of this type.
    ///
    /// A numeric type also names the Rust type that reads it without a
    /// conversion.
    pub fn name(&self) -> (r: String)
        ensures
            r@ == dtype_name(*self),
        decreases *self,
    {
        match self {
            DType::Int(1) => String::from_str("i8"),
            DType::Int(2) => String::from_str("i16"),
            DType::Int(4) => String::from_str("i32"),
            DType::Int(8) => String::from_str("i64"),
            DType::Uint(1) => String::from_str("u8"),
            DType::Uint(2) => String::from_str("u16"),
            DType::Uint(4) => String::from_str("u32"),
            DType::Uint(8) => String::from_str("u64"),
            DType::Float(4) => String::from_str("f32"),
            DType::Float(8) => String::from_str("f64"),
            DType::Int(n) => add_text(numbered("a ", *n as u64), "-byte signed integer"),
            DType::Uint(n) => add_text(numbered("a ", *n as u64), "-byte unsigned integer"),
            DType::Float(n) => add_text(numbered("a ", *n as u64), "-byte float"),
            DType::Char => String::from_str("char"),
            DType::String => String::from_str("string"),
            DType::FixedString(n) => add_text(numbered("a ", *n as u64), "-byte fixed string"),
            DType::Vlen(base) => joined("a ragged array of ", base.name().as_str()),
            DType::Other => String::from_str("a type this reader does not model"),
        }
    }
}

} // verus!
