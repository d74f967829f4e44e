//! The types that a read can give its numbers in.
//!
//! | Type | netCDF | HDF5 |
//! |---|---|---|
//! | `i8` `i16` `i32` `i64` | `byte` `short` `int` `int64` | signed fixed point |
//! | `u8` `u16` `u32` `u64` | `ubyte` `ushort` `uint` `uint64` | unsigned fixed point |
//! | [`F32`] [`F64`] | `float` `double` | floating point |

use vstd::prelude::*;

use crate::dtype::DType;
#[allow(unused_imports)]
use crate::dtype::dtype_name;
use crate::float::{from_signed, from_unsigned, to_signed, to_unsigned, Format, F32, F64};
#[allow(unused_imports)]
use crate::float::{reformatted, truncated, whole_pattern, within};
use crate::sealed::Sealed;

verus! {

/// One number, in the widest type that holds it exactly.
///
/// An `i64` value does not detour through a float.
#[derive(Debug, Clone, Copy, PartialEq, Eq, Structural)]
pub enum Scalar {
    /// An unsigned integer.
    Unsigned(u64),
    /// A signed integer.
    Signed(i64),
    /// A 32-bit IEEE float, by its bit pattern.
    Float(u32),
    /// A 64-bit IEEE float, by its bit pattern.
    Double(u64),
}

/// A type that a read can give its numbers in.
///
/// # Conversion
///
/// A read converts between any two numeric types. A conversion can lose
/// information. [`F64`] to [`F32`] loses precision. `i64` to [`F64`] loses
/// integers above two to the power 53. An integer keeps its low bits in a
/// narrower integer. A float to an integer truncates toward zero, and saturates
/// at the limits of the target.
///
/// Call [`DType::of`] to learn the stored type, then ask for that type. The
/// read then copies the values and changes nothing.
///
/// This trait is sealed. Only ten types implement it.
pub trait Element: Sealed + Copy + Sized {
    /// The stored type that needs no conversion.
    spec fn stored() -> DType;

    /// What a stored signed integer becomes.
    spec fn of_i64(value: i64) -> Self;

    /// What a stored unsigned integer becomes.
    spec fn of_u64(value: u64) -> Self;

    /// What a stored 32-bit float becomes.
    spec fn of_f32(bits: u32) -> Self;

    /// What a stored 64-bit float becomes.
    spec fn of_f64(bits: u64) -> Self;

    /// The bits of the number, behind zeros.
    spec fn pattern(self) -> u64;

    /// The stored type that needs no conversion.
    fn dtype() -> (r: DType)
        ensures
            r == Self::stored(),
    ;

    /// The name used in an error message.
    fn name() -> (r: &'static str)
        ensures
            r@ == dtype_name(Self::stored()),
    ;

    /// Convert from a stored signed integer.
    fn from_i64(value: i64) -> (r: Self)
        ensures
            r == Self::of_i64(value),
    ;

    /// Convert from a stored unsigned integer.
    fn from_u64(value: u64) -> (r: Self)
        ensures
            r == Self::of_u64(value),
    ;

    /// Convert from a stored 32-bit float.
    fn from_f32(value: F32) -> (r: Self)
        ensures
            r == Self::of_f32(value.bits),
    ;

    /// Convert from a stored 64-bit float.
    fn from_f64(value: F64) -> (r: Self)
        ensures
            r == Self::of_f64(value.bits),
    ;

    /// The bits of the number, behind zeros.
    fn to_bits(self) -> (r: u64)
        ensures
            r == self.pattern(),
    ;
}

/// What a stored number becomes in another type.
pub open spec fn converted<T: Element>(number: Scalar) -> T {
    match number {
        Scalar::Unsigned(v) => T::of_u64(v),
        Scalar::Signed(v) => T::of_i64(v),
        Scalar::Float(bits) => T::of_f32(bits),
        Scalar::Double(bits) => T::of_f64(bits),
    }
}

/// Convert a stored number to another type.
pub fn convert<T: Element>(number: Scalar) -> (r: T)
    ensures
        r == converted::<T>(number),
{
    match number {
        Scalar::Unsigned(v) => T::from_u64(v),
        Scalar::Signed(v) => T::from_i64(v),
        Scalar::Float(bits) => T::from_f32(F32 { bits }),
        Scalar::Double(bits) => T::from_f64(F64 { bits }),
    }
}

impl Sealed for i8 {

}

impl Element for i8 {
    open spec fn stored() -> DType {
        DType::Int(1)
    }

    open spec fn of_i64(value: i64) -> Self {
        value as i8
    }

    open spec fn of_u64(value: u64) -> Self {
        value as i8
    }

    open spec fn of_f32(bits: u32) -> Self {
        within(truncated(Format::Single, bits as nat), i8::MIN as int, i8::MAX as int) as i8
    }

    open spec fn of_f64(bits: u64) -> Self {
        within(truncated(Format::Double, bits as nat), i8::MIN as int, i8::MAX as int) as i8
    }

    open spec fn pattern(self) -> u64 {
        (self as u8) as u64
    }

    fn dtype() -> (r: DType) {
        DType::Int(1)
    }

    fn name() -> (r: &'static str) {
        "i8"
    }

    fn from_i64(value: i64) -> (r: Self) {
        value as i8
    }

    fn from_u64(value: u64) -> (r: Self) {
        value as i8
    }

    fn from_f32(value: F32) -> (r: Self) {
        to_signed(Format::Single, value.bits as u64, i8::MAX as i64) as i8
    }

    fn from_f64(value: F64) -> (r: Self) {
        to_signed(Format::Double, value.bits, i8::MAX as i64) as i8
    }

    fn to_bits(self) -> (r: u64) {
        (self as u8) as u64
    }
}

impl Sealed for i16 {

}

impl Element for i16 {
    open spec fn stored() -> DType {
        DType::Int(2)
    }

    open spec fn of_i64(value: i64) -> Self {
        value as i16
    }

    open spec fn of_u64(value: u64) -> Self {
        value as i16
    }

    open spec fn of_f32(bits: u32) -> Self {
        within(truncated(Format::Single, bits as nat), i16::MIN as int, i16::MAX as int) as i16
    }

    open spec fn of_f64(bits: u64) -> Self {
        within(truncated(Format::Double, bits as nat), i16::MIN as int, i16::MAX as int) as i16
    }

    open spec fn pattern(self) -> u64 {
        (self as u16) as u64
    }

    fn dtype() -> (r: DType) {
        DType::Int(2)
    }

    fn name() -> (r: &'static str) {
        "i16"
    }

    fn from_i64(value: i64) -> (r: Self) {
        value as i16
    }

    fn from_u64(value: u64) -> (r: Self) {
        value as i16
    }

    fn from_f32(value: F32) -> (r: Self) {
        to_signed(Format::Single, value.bits as u64, i16::MAX as i64) as i16
    }

    fn from_f64(value: F64) -> (r: Self) {
        to_signed(Format::Double, value.bits, i16::MAX as i64) as i16
    }

    fn to_bits(self) -> (r: u64) {
        (self as u16) as u64
    }
}

impl Sealed for i32 {

}

impl Element for i32 {
    open spec fn stored() -> DType {
        DType::Int(4)
    }

    open spec fn of_i64(value: i64) -> Self {
        value as i32
    }

    open spec fn of_u64(value: u64) -> Self {
        value as i32
    }

    open spec fn of_f32(bits: u32) -> Self {
        within(truncated(Format::Single, bits as nat), i32::MIN as int, i32::MAX as int) as i32
    }

    open spec fn of_f64(bits: u64) -> Self {
        within(truncated(Format::Double, bits as nat), i32::MIN as int, i32::MAX as int) as i32
    }

    open spec fn pattern(self) -> u64 {
        (self as u32) as u64
    }

    fn dtype() -> (r: DType) {
        DType::Int(4)
    }

    fn name() -> (r: &'static str) {
        "i32"
    }

    fn from_i64(value: i64) -> (r: Self) {
        value as i32
    }

    fn from_u64(value: u64) -> (r: Self) {
        value as i32
    }

    fn from_f32(value: F32) -> (r: Self) {
        to_signed(Format::Single, value.bits as u64, i32::MAX as i64) as i32
    }

    fn from_f64(value: F64) -> (r: Self) {
        to_signed(Format::Double, value.bits, i32::MAX as i64) as i32
    }

    fn to_bits(self) -> (r: u64) {
        (self as u32) as u64
    }
}

impl Sealed for i64 {

}

impl Element for i64 {
    open spec fn stored() -> DType {
        DType::Int(8)
    }

    open spec fn of_i64(value: i64) -> Self {
        value
    }

    open spec fn of_u64(value: u64) -> Self {
        value as i64
    }

    open spec fn of_f32(bits: u32) -> Self {
        within(truncated(Format::Single, bits as nat), i64::MIN as int, i64::MAX as int) as i64
    }

    open spec fn of_f64(bits: u64) -> Self {
        within(truncated(Format::Double, bits as nat), i64::MIN as int, i64::MAX as int) as i64
    }

    open spec fn pattern(self) -> u64 {
        self as u64
    }

    fn dtype() -> (r: DType) {
        DType::Int(8)
    }

    fn name() -> (r: &'static str) {
        "i64"
    }

    fn from_i64(value: i64) -> (r: Self) {
        value
    }

    fn from_u64(value: u64) -> (r: Self) {
        value as i64
    }

    fn from_f32(value: F32) -> (r: Self) {
        to_signed(Format::Single, value.bits as u64, i64::MAX)
    }

    fn from_f64(value: F64) -> (r: Self) {
        to_signed(Format::Double, value.bits, i64::MAX)
    }

    fn to_bits(self) -> (r: u64) {
        self as u64
    }
}

impl Sealed for u8 {

}

impl Element for u8 {
    open spec fn stored() -> DType {
        DType::Uint(1)
    }

    open spec fn of_i64(value: i64) -> Self {
        value as u8
    }

    open spec fn of_u64(value: u64) -> Self {
        value as u8
    }

    open spec fn of_f32(bits: u32) -> Self {
        within(truncated(Format::Single, bits as nat), u8::MIN as int, u8::MAX as int) as u8
    }

    open spec fn of_f64(bits: u64) -> Self {
        within(truncated(Format::Double, bits as nat), u8::MIN as int, u8::MAX as int) as u8
    }

    open spec fn pattern(self) -> u64 {
        self as u64
    }

    fn dtype() -> (r: DType) {
        DType::Uint(1)
    }

    fn name() -> (r: &'static str) {
        "u8"
    }

    fn from_i64(value: i64) -> (r: Self) {
        value as u8
    }

    fn from_u64(value: u64) -> (r: Self) {
        value as u8
    }

    fn from_f32(value: F32) -> (r: Self) {
        to_unsigned(Format::Single, value.bits as u64, u8::MAX as u64) as u8
    }

    fn from_f64(value: F64) -> (r: Self) {
        to_unsigned(Format::Double, value.bits, u8::MAX as u64) as u8
    }

    fn to_bits(self) -> (r: u64) {
        self as u64
    }
}

impl Sealed for u16 {

}

impl Element for u16 {
    open spec fn stored() -> DType {
        DType::Uint(2)
    }

    open spec fn of_i64(value: i64) -> Self {
        value as u16
    }

    open spec fn of_u64(value: u64) -> Self {
        value as u16
    }

    open spec fn of_f32(bits: u32) -> Self {
        within(truncated(Format::Single, bits as nat), u16::MIN as int, u16::MAX as int) as u16
    }

    open spec fn of_f64(bits: u64) -> Self {
        within(truncated(Format::Double, bits as nat), u16::MIN as int, u16::MAX as int) as u16
    }

    open spec fn pattern(self) -> u64 {
        self as u64
    }

    fn dtype() -> (r: DType) {
        DType::Uint(2)
    }

    fn name() -> (r: &'static str) {
        "u16"
    }

    fn from_i64(value: i64) -> (r: Self) {
        value as u16
    }

    fn from_u64(value: u64) -> (r: Self) {
        value as u16
    }

    fn from_f32(value: F32) -> (r: Self) {
        to_unsigned(Format::Single, value.bits as u64, u16::MAX as u64) as u16
    }

    fn from_f64(value: F64) -> (r: Self) {
        to_unsigned(Format::Double, value.bits, u16::MAX as u64) as u16
    }

    fn to_bits(self) -> (r: u64) {
        self as u64
    }
}

impl Sealed for u32 {

}

impl Element for u32 {
    open spec fn stored() -> DType {
        DType::Uint(4)
    }

    open spec fn of_i64(value: i64) -> Self {
        value as u32
    }

    open spec fn of_u64(value: u64) -> Self {
        value as u32
    }

    open spec fn of_f32(bits: u32) -> Self {
        within(truncated(Format::Single, bits as nat), u32::MIN as int, u32::MAX as int) as u32
    }

    open spec fn of_f64(bits: u64) -> Self {
        within(truncated(Format::Double, bits as nat), u32::MIN as int, u32::MAX as int) as u32
    }

    open spec fn pattern(self) -> u64 {
        self as u64
    }

    fn dtype() -> (r: DType) {
        DType::Uint(4)
    }

    fn name() -> (r: &'static str) {
        "u32"
    }

    fn from_i64(value: i64) -> (r: Self) {
        value as u32
    }

    fn from_u64(value: u64) -> (r: Self) {
        value as u32
    }

    fn from_f32(value: F32) -> (r: Self) {
        to_unsigned(Format::Single, value.bits as u64, u32::MAX as u64) as u32
    }

    fn from_f64(value: F64) -> (r: Self) {
        to_unsigned(Format::Double, value.bits, u32::MAX as u64) as u32
    }

    fn to_bits(self) -> (r: u64) {
        self as u64
    }
}

impl Sealed for u64 {

}

impl Element for u64 {
    open spec fn stored() -> DType {
        DType::Uint(8)
    }

    open spec fn of_i64(value: i64) -> Self {
        value as u64
    }

    open spec fn of_u64(value: u64) -> Self {
        value
    }

    open spec fn of_f32(bits: u32) -> Self {
        within(truncated(Format::Single, bits as nat), u64::MIN as int, u64::MAX as int) as u64
    }

    open spec fn of_f64(bits: u64) -> Self {
        within(truncated(Format::Double, bits as nat), u64::MIN as int, u64::MAX as int) as u64
    }

    open spec fn pattern(self) -> u64 {
        self
    }

    fn dtype() -> (r: DType) {
        DType::Uint(8)
    }

    fn name() -> (r: &'static str) {
        "u64"
    }

    fn from_i64(value: i64) -> (r: Self) {
        value as u64
    }

    fn from_u64(value: u64) -> (r: Self) {
        value
    }

    fn from_f32(value: F32) -> (r: Self) {
        to_unsigned(Format::Single, value.bits as u64, u64::MAX)
    }

    fn from_f64(value: F64) -> (r: Self) {
        to_unsigned(Format::Double, value.bits, u64::MAX)
    }

    fn to_bits(self) -> (r: u64) {
        self
    }
}

impl Sealed for F32 {

}

impl Element for F32 {
    open spec fn stored() -> DType {
        DType::Float(4)
    }

    open spec fn of_i64(value: i64) -> Self {
        F32 { bits: whole_pattern(Format::Single, value as int) as u32 }
    }

    open spec fn of_u64(value: u64) -> Self {
        F32 { bits: whole_pattern(Format::Single, value as int) as u32 }
    }

    open spec fn of_f32(bits: u32) -> Self {
        F32 { bits }
    }

    open spec fn of_f64(bits: u64) -> Self {
        F32 { bits: reformatted(Format::Double, Format::Single, bits as nat) as u32 }
    }

    open spec fn pattern(self) -> u64 {
        self.bits as u64
    }

    fn dtype() -> (r: DType) {
        DType::Float(4)
    }

    fn name() -> (r: &'static str) {
        "f32"
    }

    fn from_i64(value: i64) -> (r: Self) {
        F32 { bits: from_signed(Format::Single, value) as u32 }
    }

    fn from_u64(value: u64) -> (r: Self) {
        F32 { bits: from_unsigned(Format::Single, value) as u32 }
    }

    fn from_f32(value: F32) -> (r: Self) {
        value
    }

    fn from_f64(value: F64) -> (r: Self) {
        value.narrow()
    }

    fn to_bits(self) -> (r: u64) {
        self.bits as u64
    }
}

impl Sealed for F64 {

}

impl Element for F64 {
    open spec fn stored() -> DType {
        DType::Float(8)
    }

    open spec fn of_i64(value: i64) -> Self {
        F64 { bits: whole_pattern(Format::Double, value as int) as u64 }
    }

    open spec fn of_u64(value: u64) -> Self {
        F64 { bits: whole_pattern(Format::Double, value as int) as u64 }
    }

    open spec fn of_f32(bits: u32) -> Self {
        F64 { bits: reformatted(Format::Single, Format::Double, bits as nat) as u64 }
    }

    open spec fn of_f64(bits: u64) -> Self {
        F64 { bits }
    }

    open spec fn pattern(self) -> u64 {
        self.bits
    }

    fn dtype() -> (r: DType) {
        DType::Float(8)
    }

    fn name() -> (r: &'static str) {
        "f64"
    }

    fn from_i64(value: i64) -> (r: Self) {
        F64 { bits: from_signed(Format::Double, value) }
    }

    fn from_u64(value: u64) -> (r: Self) {
        F64 { bits: from_unsigned(Format::Double, value) }
    }

    fn from_f32(value: F32) -> (r: Self) {
        value.widen()
    }

    fn from_f64(value: F64) -> (r: Self) {
        value
    }

    fn to_bits(self) -> (r: u64) {
        self.bits
    }
}

} // verus!
