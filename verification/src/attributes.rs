//! Attribute values.
//!
//! An attribute's bytes are decoded according to its datatype. The value keeps
//! the stored type. One value gets the singular variant. Several values get the
//! plural one. A type this reader cannot decode stays as raw bytes, so the
//! attribute is still visible.

use vstd::prelude::*;
use vstd::slice::{slice_subrange, slice_to_vec};
use vstd::string::*;

use crate::bytes::{from_le, lossy_text, trimmed_len};
#[allow(unused_imports)]
use crate::bytes::{
    le_value, lemma_pow256_monotonic, lemma_pow256_values, pow256, utf8_lossy,
    without_trailing_spaces,
};
use crate::cursor::position_of_zero;
#[allow(unused_imports)]
use crate::cursor::{first_zero, lemma_first_zero};
use crate::dtype::DType;
use crate::element::{convert, Scalar};
#[allow(unused_imports)]
use crate::element::converted;
use crate::error::{Error, Result};
#[allow(unused_imports)]
use crate::error::{seen, ErrorView};
use crate::float::F64;
use crate::message::datatype::{ByteOrder, Datatype, DatatypeClass, StringPad, VlenKind};
#[allow(unused_imports)]
use crate::message::datatype::{ClassView, DatatypeView};
use crate::text::{add_number, add_text};
#[allow(unused_imports)]
use crate::text::decimal;
#[allow(unused_imports)]
use crate::views::views;

verus! {

broadcast use crate::views::group_views;

/// A decoded attribute value.
///
/// The value keeps the type the file stores. A single value gets the singular
/// variant, and several values get the plural one.
#[derive(Debug, Clone, PartialEq)]
pub enum AttributeValue {
    Uchar(u8),
    Uchars(Vec<u8>),
    Schar(i8),
    Schars(Vec<i8>),
    Ushort(u16),
    Ushorts(Vec<u16>),
    Short(i16),
    Shorts(Vec<i16>),
    Uint(u32),
    Uints(Vec<u32>),
    Int(i32),
    Ints(Vec<i32>),
    Ulonglong(u64),
    Ulonglongs(Vec<u64>),
    Longlong(i64),
    Longlongs(Vec<i64>),
    /// A 32-bit IEEE float, by its bit pattern.
    Float(u32),
    /// 32-bit IEEE floats, by their bit patterns.
    Floats(Vec<u32>),
    /// A 64-bit IEEE float, by its bit pattern.
    Double(u64),
    /// 64-bit IEEE floats, by their bit patterns.
    Doubles(Vec<u64>),
    Str(String),
    Strs(Vec<String>),
    /// A value this reader does not decode. The bytes are as stored.
    ///
    /// This reader parses HDF5 directly, so it can meet a type netCDF never
    /// defines. The attribute stays visible rather than vanishing.
    Raw(Vec<u8>),
}

/// What an [`AttributeValue`] holds.
#[verifier::ext_equal]
pub enum AttributeValueView {
    Uchar(u8),
    Uchars(Seq<u8>),
    Schar(i8),
    Schars(Seq<i8>),
    Ushort(u16),
    Ushorts(Seq<u16>),
    Short(i16),
    Shorts(Seq<i16>),
    Uint(u32),
    Uints(Seq<u32>),
    Int(i32),
    Ints(Seq<i32>),
    Ulonglong(u64),
    Ulonglongs(Seq<u64>),
    Longlong(i64),
    Longlongs(Seq<i64>),
    Float(u32),
    Floats(Seq<u32>),
    Double(u64),
    Doubles(Seq<u64>),
    Str(Seq<char>),
    Strs(Seq<Seq<char>>),
    Raw(Seq<u8>),
}

impl View for AttributeValue {
    type V = AttributeValueView;

    open spec fn view(&self) -> AttributeValueView {
        match *self {
            AttributeValue::Uchar(v) => AttributeValueView::Uchar(v),
            AttributeValue::Uchars(v) => AttributeValueView::Uchars(v@),
            AttributeValue::Schar(v) => AttributeValueView::Schar(v),
            AttributeValue::Schars(v) => AttributeValueView::Schars(v@),
            AttributeValue::Ushort(v) => AttributeValueView::Ushort(v),
            AttributeValue::Ushorts(v) => AttributeValueView::Ushorts(v@),
            AttributeValue::Short(v) => AttributeValueView::Short(v),
            AttributeValue::Shorts(v) => AttributeValueView::Shorts(v@),
            AttributeValue::Uint(v) => AttributeValueView::Uint(v),
            AttributeValue::Uints(v) => AttributeValueView::Uints(v@),
            AttributeValue::Int(v) => AttributeValueView::Int(v),
            AttributeValue::Ints(v) => AttributeValueView::Ints(v@),
            AttributeValue::Ulonglong(v) => AttributeValueView::Ulonglong(v),
            AttributeValue::Ulonglongs(v) => AttributeValueView::Ulonglongs(v@),
            AttributeValue::Longlong(v) => AttributeValueView::Longlong(v),
            AttributeValue::Longlongs(v) => AttributeValueView::Longlongs(v@),
            AttributeValue::Float(v) => AttributeValueView::Float(v),
            AttributeValue::Floats(v) => AttributeValueView::Floats(v@),
            AttributeValue::Double(v) => AttributeValueView::Double(v),
            AttributeValue::Doubles(v) => AttributeValueView::Doubles(v@),
            AttributeValue::Str(s) => AttributeValueView::Str(s@),
            AttributeValue::Strs(v) => AttributeValueView::Strs(views(v@)),
            AttributeValue::Raw(v) => AttributeValueView::Raw(v@),
        }
    }
}

impl AttributeValueView {
    /// Number of values.
    pub open spec fn count(self) -> nat {
        match self {
            AttributeValueView::Uchars(v) => v.len(),
            AttributeValueView::Schars(v) => v.len(),
            AttributeValueView::Ushorts(v) => v.len(),
            AttributeValueView::Shorts(v) => v.len(),
            AttributeValueView::Uints(v) => v.len(),
            AttributeValueView::Ints(v) => v.len(),
            AttributeValueView::Ulonglongs(v) => v.len(),
            AttributeValueView::Longlongs(v) => v.len(),
            AttributeValueView::Floats(v) => v.len(),
            AttributeValueView::Doubles(v) => v.len(),
            AttributeValueView::Strs(v) => v.len(),
            AttributeValueView::Raw(v) => v.len(),
            _ => 1,
        }
    }

    /// Every string, when the value is textual.
    pub open spec fn texts(self) -> Option<Seq<Seq<char>>> {
        match self {
            AttributeValueView::Str(s) => Some(seq![s]),
            AttributeValueView::Strs(v) => Some(v),
            _ => None,
        }
    }

    /// The netCDF type of the value.
    pub open spec fn kind(self) -> DType {
        match self {
            AttributeValueView::Uchar(_) => DType::Uint(1),
            AttributeValueView::Uchars(_) => DType::Uint(1),
            AttributeValueView::Schar(_) => DType::Int(1),
            AttributeValueView::Schars(_) => DType::Int(1),
            AttributeValueView::Ushort(_) => DType::Uint(2),
            AttributeValueView::Ushorts(_) => DType::Uint(2),
            AttributeValueView::Short(_) => DType::Int(2),
            AttributeValueView::Shorts(_) => DType::Int(2),
            AttributeValueView::Uint(_) => DType::Uint(4),
            AttributeValueView::Uints(_) => DType::Uint(4),
            AttributeValueView::Int(_) => DType::Int(4),
            AttributeValueView::Ints(_) => DType::Int(4),
            AttributeValueView::Ulonglong(_) => DType::Uint(8),
            AttributeValueView::Ulonglongs(_) => DType::Uint(8),
            AttributeValueView::Longlong(_) => DType::Int(8),
            AttributeValueView::Longlongs(_) => DType::Int(8),
            AttributeValueView::Float(_) => DType::Float(4),
            AttributeValueView::Floats(_) => DType::Float(4),
            AttributeValueView::Double(_) => DType::Float(8),
            AttributeValueView::Doubles(_) => DType::Float(8),
            AttributeValueView::Str(_) => DType::String,
            AttributeValueView::Strs(_) => DType::String,
            AttributeValueView::Raw(_) => DType::Other,
        }
    }

    /// The first value, when it is a number.
    pub open spec fn first_number(self) -> Option<Scalar> {
        match self {
            AttributeValueView::Uchar(v) => Some(Scalar::Unsigned(v as u64)),
            AttributeValueView::Uchars(v) => if v.len() == 0 {
                None
            } else {
                Some(Scalar::Unsigned(v[0] as u64))
            },
            AttributeValueView::Schar(v) => Some(Scalar::Signed(v as i64)),
            AttributeValueView::Schars(v) => if v.len() == 0 {
                None
            } else {
                Some(Scalar::Signed(v[0] as i64))
            },
            AttributeValueView::Ushort(v) => Some(Scalar::Unsigned(v as u64)),
            AttributeValueView::Ushorts(v) => if v.len() == 0 {
                None
            } else {
                Some(Scalar::Unsigned(v[0] as u64))
            },
            AttributeValueView::Short(v) => Some(Scalar::Signed(v as i64)),
            AttributeValueView::Shorts(v) => if v.len() == 0 {
                None
            } else {
                Some(Scalar::Signed(v[0] as i64))
            },
            AttributeValueView::Uint(v) => Some(Scalar::Unsigned(v as u64)),
            AttributeValueView::Uints(v) => if v.len() == 0 {
                None
            } else {
                Some(Scalar::Unsigned(v[0] as u64))
            },
            AttributeValueView::Int(v) => Some(Scalar::Signed(v as i64)),
            AttributeValueView::Ints(v) => if v.len() == 0 {
                None
            } else {
                Some(Scalar::Signed(v[0] as i64))
            },
            AttributeValueView::Ulonglong(v) => Some(Scalar::Unsigned(v)),
            AttributeValueView::Ulonglongs(v) => if v.len() == 0 {
                None
            } else {
                Some(Scalar::Unsigned(v[0]))
            },
            AttributeValueView::Longlong(v) => Some(Scalar::Signed(v)),
            AttributeValueView::Longlongs(v) => if v.len() == 0 {
                None
            } else {
                Some(Scalar::Signed(v[0]))
            },
            AttributeValueView::Float(v) => Some(Scalar::Float(v)),
            AttributeValueView::Floats(v) => if v.len() == 0 {
                None
            } else {
                Some(Scalar::Float(v[0]))
            },
            AttributeValueView::Double(v) => Some(Scalar::Double(v)),
            AttributeValueView::Doubles(v) => if v.len() == 0 {
                None
            } else {
                Some(Scalar::Double(v[0]))
            },
            AttributeValueView::Str(_) => None,
            AttributeValueView::Strs(_) => None,
            AttributeValueView::Raw(_) => None,
        }
    }

    /// Every value, when they are numbers.
    pub open spec fn numbers(self) -> Option<Seq<Scalar>> {
        match self {
            AttributeValueView::Uchar(v) => Some(seq![Scalar::Unsigned(v as u64)]),
            AttributeValueView::Uchars(v) => Some(
                Seq::new(v.len(), |i: int| Scalar::Unsigned(v[i] as u64)),
            ),
            AttributeValueView::Schar(v) => Some(seq![Scalar::Signed(v as i64)]),
            AttributeValueView::Schars(v) => Some(
                Seq::new(v.len(), |i: int| Scalar::Signed(v[i] as i64)),
            ),
            AttributeValueView::Ushort(v) => Some(seq![Scalar::Unsigned(v as u64)]),
            AttributeValueView::Ushorts(v) => Some(
                Seq::new(v.len(), |i: int| Scalar::Unsigned(v[i] as u64)),
            ),
            AttributeValueView::Short(v) => Some(seq![Scalar::Signed(v as i64)]),
            AttributeValueView::Shorts(v) => Some(
                Seq::new(v.len(), |i: int| Scalar::Signed(v[i] as i64)),
            ),
            AttributeValueView::Uint(v) => Some(seq![Scalar::Unsigned(v as u64)]),
            AttributeValueView::Uints(v) => Some(
                Seq::new(v.len(), |i: int| Scalar::Unsigned(v[i] as u64)),
            ),
            AttributeValueView::Int(v) => Some(seq![Scalar::Signed(v as i64)]),
            AttributeValueView::Ints(v) => Some(
                Seq::new(v.len(), |i: int| Scalar::Signed(v[i] as i64)),
            ),
            AttributeValueView::Ulonglong(v) => Some(seq![Scalar::Unsigned(v)]),
            AttributeValueView::Ulonglongs(v) => Some(
                Seq::new(v.len(), |i: int| Scalar::Unsigned(v[i])),
            ),
            AttributeValueView::Longlong(v) => Some(seq![Scalar::Signed(v)]),
            AttributeValueView::Longlongs(v) => Some(
                Seq::new(v.len(), |i: int| Scalar::Signed(v[i])),
            ),
            AttributeValueView::Float(v) => Some(seq![Scalar::Float(v)]),
            AttributeValueView::Floats(v) => Some(
                Seq::new(v.len(), |i: int| Scalar::Float(v[i])),
            ),
            AttributeValueView::Double(v) => Some(seq![Scalar::Double(v)]),
            AttributeValueView::Doubles(v) => Some(
                Seq::new(v.len(), |i: int| Scalar::Double(v[i])),
            ),
            AttributeValueView::Str(_) => None,
            AttributeValueView::Strs(_) => None,
            AttributeValueView::Raw(_) => None,
        }
    }

    /// Every value as a 64-bit float, when they are numbers.
    pub open spec fn doubles(self) -> Option<Seq<F64>> {
        match self.numbers() {
            Some(n) => Some(Seq::new(n.len(), |i: int| converted::<F64>(n[i]))),
            None => None,
        }
    }
}

impl AttributeValue {
    /// The value as one string, when it is textual.
    pub fn as_text(&self) -> (r: Option<&str>)
        ensures
            match self@.texts() {
                Some(t) => if t.len() == 0 {
                    r is None
                } else {
                    r is Some && r->Some_0@ == t[0]
                },
                None => r is None,
            },
    {
        match self {
            AttributeValue::Str(s) => Some(s.as_str()),
            AttributeValue::Strs(v) => if v.len() == 0 {
                None
            } else {
                Some(v[0].as_str())
            },
            _ => None,
        }
    }

    /// Every string, when the value is textual.
    pub fn as_texts(&self) -> (r: Option<Vec<&str>>)
        ensures
            match self@.texts() {
                Some(t) => r is Some && views(r->Some_0@) == t,
                None => r is None,
            },
    {
        match self {
            AttributeValue::Str(s) => {
                let out: Vec<&str> = vec![s.as_str()];
                assert(views(out@) =~= seq![s@]);
                Some(out)
            },
            AttributeValue::Strs(v) => {
                let mut out: Vec<&str> = Vec::new();
                while out.len() < v.len()
                    invariant
                        out@.len() <= v@.len(),
                        views(out@) == views(v@).take(out@.len() as int),
                    decreases v@.len() - out@.len(),
                {
                    out.push(v[out.len()].as_str());
                    assert(views(out@) =~= views(v@).take(out@.len() as int));
                }
                assert(views(v@).take(out@.len() as int) =~= views(v@));
                Some(out)
            },
            _ => None,
        }
    }

    /// The netCDF type of the value.
    pub fn vartype(&self) -> (r: DType)
        ensures
            r == self@.kind(),
    {
        match self {
            AttributeValue::Uchar(_) | AttributeValue::Uchars(_) => DType::Uint(1),
            AttributeValue::Schar(_) | AttributeValue::Schars(_) => DType::Int(1),
            AttributeValue::Ushort(_) | AttributeValue::Ushorts(_) => DType::Uint(2),
            AttributeValue::Short(_) | AttributeValue::Shorts(_) => DType::Int(2),
            AttributeValue::Uint(_) | AttributeValue::Uints(_) => DType::Uint(4),
            AttributeValue::Int(_) | AttributeValue::Ints(_) => DType::Int(4),
            AttributeValue::Ulonglong(_) | AttributeValue::Ulonglongs(_) => DType::Uint(8),
            AttributeValue::Longlong(_) | AttributeValue::Longlongs(_) => DType::Int(8),
            AttributeValue::Float(_) | AttributeValue::Floats(_) => DType::Float(4),
            AttributeValue::Double(_) | AttributeValue::Doubles(_) => DType::Float(8),
            AttributeValue::Str(_) | AttributeValue::Strs(_) => DType::String,
            AttributeValue::Raw(_) => DType::Other,
        }
    }

    /// Number of values.
    pub fn len(&self) -> (r: usize)
        ensures
            r == self@.count(),
    {
        match self {
            AttributeValue::Uchars(v) => v.len(),
            AttributeValue::Schars(v) => v.len(),
            AttributeValue::Ushorts(v) => v.len(),
            AttributeValue::Shorts(v) => v.len(),
            AttributeValue::Uints(v) => v.len(),
            AttributeValue::Ints(v) => v.len(),
            AttributeValue::Ulonglongs(v) => v.len(),
            AttributeValue::Longlongs(v) => v.len(),
            AttributeValue::Floats(v) => v.len(),
            AttributeValue::Doubles(v) => v.len(),
            AttributeValue::Strs(v) => v.len(),
            AttributeValue::Raw(v) => v.len(),
            _ => 1,
        }
    }

    /// Whether the value holds nothing.
    pub fn is_empty(&self) -> (r: bool)
        ensures
            r == (self@.count() == 0),
    {
        self.len() == 0
    }

    /// The first value, when it is a number.
    ///
    /// A fill value is read this way: each variant converts from the widest
    /// type that holds it exactly.
    pub fn first_number(&self) -> (r: Option<Scalar>)
        ensures
            r == self@.first_number(),
    {
        match self {
            AttributeValue::Uchar(v) => Some(Scalar::Unsigned(*v as u64)),
            AttributeValue::Uchars(v) => if v.len() == 0 {
                None
            } else {
                Some(Scalar::Unsigned(v[0] as u64))
            },
            AttributeValue::Schar(v) => Some(Scalar::Signed(*v as i64)),
            AttributeValue::Schars(v) => if v.len() == 0 {
                None
            } else {
                Some(Scalar::Signed(v[0] as i64))
            },
            AttributeValue::Ushort(v) => Some(Scalar::Unsigned(*v as u64)),
            AttributeValue::Ushorts(v) => if v.len() == 0 {
                None
            } else {
                Some(Scalar::Unsigned(v[0] as u64))
            },
            AttributeValue::Short(v) => Some(Scalar::Signed(*v as i64)),
            AttributeValue::Shorts(v) => if v.len() == 0 {
                None
            } else {
                Some(Scalar::Signed(v[0] as i64))
            },
            AttributeValue::Uint(v) => Some(Scalar::Unsigned(*v as u64)),
            AttributeValue::Uints(v) => if v.len() == 0 {
                None
            } else {
                Some(Scalar::Unsigned(v[0] as u64))
            },
            AttributeValue::Int(v) => Some(Scalar::Signed(*v as i64)),
            AttributeValue::Ints(v) => if v.len() == 0 {
                None
            } else {
                Some(Scalar::Signed(v[0] as i64))
            },
            AttributeValue::Ulonglong(v) => Some(Scalar::Unsigned(*v)),
            AttributeValue::Ulonglongs(v) => if v.len() == 0 {
                None
            } else {
                Some(Scalar::Unsigned(v[0]))
            },
            AttributeValue::Longlong(v) => Some(Scalar::Signed(*v)),
            AttributeValue::Longlongs(v) => if v.len() == 0 {
                None
            } else {
                Some(Scalar::Signed(v[0]))
            },
            AttributeValue::Float(v) => Some(Scalar::Float(*v)),
            AttributeValue::Floats(v) => if v.len() == 0 {
                None
            } else {
                Some(Scalar::Float(v[0]))
            },
            AttributeValue::Double(v) => Some(Scalar::Double(*v)),
            AttributeValue::Doubles(v) => if v.len() == 0 {
                None
            } else {
                Some(Scalar::Double(v[0]))
            },
            AttributeValue::Str(_) => None,
            AttributeValue::Strs(_) => None,
            AttributeValue::Raw(_) => None,
        }
    }

    /// Every value, when they are numbers, each in the widest type that holds it
    /// exactly.
    pub fn numbers(&self) -> (r: Option<Vec<Scalar>>)
        ensures
            match r {
                Some(v) => self@.numbers() == Some(v@),
                None => self@.numbers() is None,
            },
    {
        let mut out: Vec<Scalar> = Vec::new();
        match self {
            AttributeValue::Uchar(v) => {
                out.push(Scalar::Unsigned(*v as u64));
            },
            AttributeValue::Uchars(v) => {
                while out.len() < v.len()
                    invariant
                        out@.len() <= v@.len(),
                        out@ == Seq::new(out@.len(), |i: int| Scalar::Unsigned(v@[i] as u64)),
                    decreases v@.len() - out@.len(),
                {
                    out.push(Scalar::Unsigned(v[out.len()] as u64));
                    assert(out@ =~= Seq::new(out@.len(), |i: int| Scalar::Unsigned(v@[i] as u64)));
                }
            },
            AttributeValue::Schar(v) => {
                out.push(Scalar::Signed(*v as i64));
            },
            AttributeValue::Schars(v) => {
                while out.len() < v.len()
                    invariant
                        out@.len() <= v@.len(),
                        out@ == Seq::new(out@.len(), |i: int| Scalar::Signed(v@[i] as i64)),
                    decreases v@.len() - out@.len(),
                {
                    out.push(Scalar::Signed(v[out.len()] as i64));
                    assert(out@ =~= Seq::new(out@.len(), |i: int| Scalar::Signed(v@[i] as i64)));
                }
            },
            AttributeValue::Ushort(v) => {
                out.push(Scalar::Unsigned(*v as u64));
            },
            AttributeValue::Ushorts(v) => {
                while out.len() < v.len()
                    invariant
                        out@.len() <= v@.len(),
                        out@ == Seq::new(out@.len(), |i: int| Scalar::Unsigned(v@[i] as u64)),
                    decreases v@.len() - out@.len(),
                {
                    out.push(Scalar::Unsigned(v[out.len()] as u64));
                    assert(out@ =~= Seq::new(out@.len(), |i: int| Scalar::Unsigned(v@[i] as u64)));
                }
            },
            AttributeValue::Short(v) => {
                out.push(Scalar::Signed(*v as i64));
            },
            AttributeValue::Shorts(v) => {
                while out.len() < v.len()
                    invariant
                        out@.len() <= v@.len(),
                        out@ == Seq::new(out@.len(), |i: int| Scalar::Signed(v@[i] as i64)),
                    decreases v@.len() - out@.len(),
                {
                    out.push(Scalar::Signed(v[out.len()] as i64));
                    assert(out@ =~= Seq::new(out@.len(), |i: int| Scalar::Signed(v@[i] as i64)));
                }
            },
            AttributeValue::Uint(v) => {
                out.push(Scalar::Unsigned(*v as u64));
            },
            AttributeValue::Uints(v) => {
                while out.len() < v.len()
                    invariant
                        out@.len() <= v@.len(),
                        out@ == Seq::new(out@.len(), |i: int| Scalar::Unsigned(v@[i] as u64)),
                    decreases v@.len() - out@.len(),
                {
                    out.push(Scalar::Unsigned(v[out.len()] as u64));
                    assert(out@ =~= Seq::new(out@.len(), |i: int| Scalar::Unsigned(v@[i] as u64)));
                }
            },
            AttributeValue::Int(v) => {
                out.push(Scalar::Signed(*v as i64));
            },
            AttributeValue::Ints(v) => {
                while out.len() < v.len()
                    invariant
                        out@.len() <= v@.len(),
                        out@ == Seq::new(out@.len(), |i: int| Scalar::Signed(v@[i] as i64)),
                    decreases v@.len() - out@.len(),
                {
                    out.push(Scalar::Signed(v[out.len()] as i64));
                    assert(out@ =~= Seq::new(out@.len(), |i: int| Scalar::Signed(v@[i] as i64)));
                }
            },
            AttributeValue::Ulonglong(v) => {
                out.push(Scalar::Unsigned(*v));
            },
            AttributeValue::Ulonglongs(v) => {
                while out.len() < v.len()
                    invariant
                        out@.len() <= v@.len(),
                        out@ == Seq::new(out@.len(), |i: int| Scalar::Unsigned(v@[i])),
                    decreases v@.len() - out@.len(),
                {
                    out.push(Scalar::Unsigned(v[out.len()]));
                    assert(out@ =~= Seq::new(out@.len(), |i: int| Scalar::Unsigned(v@[i])));
                }
            },
            AttributeValue::Longlong(v) => {
                out.push(Scalar::Signed(*v));
            },
            AttributeValue::Longlongs(v) => {
                while out.len() < v.len()
                    invariant
                        out@.len() <= v@.len(),
                        out@ == Seq::new(out@.len(), |i: int| Scalar::Signed(v@[i])),
                    decreases v@.len() - out@.len(),
                {
                    out.push(Scalar::Signed(v[out.len()]));
                    assert(out@ =~= Seq::new(out@.len(), |i: int| Scalar::Signed(v@[i])));
                }
            },
            AttributeValue::Float(v) => {
                out.push(Scalar::Float(*v));
            },
            AttributeValue::Floats(v) => {
                while out.len() < v.len()
                    invariant
                        out@.len() <= v@.len(),
                        out@ == Seq::new(out@.len(), |i: int| Scalar::Float(v@[i])),
                    decreases v@.len() - out@.len(),
                {
                    out.push(Scalar::Float(v[out.len()]));
                    assert(out@ =~= Seq::new(out@.len(), |i: int| Scalar::Float(v@[i])));
                }
            },
            AttributeValue::Double(v) => {
                out.push(Scalar::Double(*v));
            },
            AttributeValue::Doubles(v) => {
                while out.len() < v.len()
                    invariant
                        out@.len() <= v@.len(),
                        out@ == Seq::new(out@.len(), |i: int| Scalar::Double(v@[i])),
                    decreases v@.len() - out@.len(),
                {
                    out.push(Scalar::Double(v[out.len()]));
                    assert(out@ =~= Seq::new(out@.len(), |i: int| Scalar::Double(v@[i])));
                }
            },
            AttributeValue::Str(_) => {
                return None;
            },
            AttributeValue::Strs(_) => {
                return None;
            },
            AttributeValue::Raw(_) => {
                return None;
            },
        }
        assert(self@.numbers()->Some_0 =~= out@);
        Some(out)
    }

    /// The first value as a 64-bit float, when it is numeric.
    ///
    /// This converts. Match on the variant to keep the stored type.
    pub fn as_f64(&self) -> (r: Option<F64>)
        ensures
            r == match self@.doubles() {
                Some(d) => if d.len() == 0 {
                    None
                } else {
                    Some(d[0])
                },
                None => None,
            },
    {
        let values = self.as_f64s()?;
        if values.len() == 0 {
            None
        } else {
            Some(values[0])
        }
    }

    /// Every value as a 64-bit float, when they are numeric.
    ///
    /// This converts. Match on the variant to keep the stored type.
    pub fn as_f64s(&self) -> (r: Option<Vec<F64>>)
        ensures
            match r {
                Some(v) => self@.doubles() == Some(v@),
                None => self@.doubles() is None,
            },
    {
        let numbers = self.numbers()?;
        let ghost want = self@.doubles()->Some_0;
        let mut out: Vec<F64> = Vec::new();
        while out.len() < numbers.len()
            invariant
                want == Seq::new(numbers@.len(), |i: int| converted::<F64>(numbers@[i])),
                out@.len() <= numbers@.len(),
                out@ == want.take(out@.len() as int),
            decreases numbers@.len() - out@.len(),
        {
            out.push(convert(numbers[out.len()]));
            assert(out@ =~= want.take(out@.len() as int));
        }
        assert(out@ =~= want);
        Some(out)
    }
}

// ── numbers ────────────────────────────────────────────────────────────────

/// Whether values of this type are stored most significant byte first.
pub open spec fn stored_big(d: DatatypeView) -> bool {
    match d.class {
        ClassView::FixedPoint { order, .. } => order is Big,
        ClassView::FloatingPoint { order, .. } => order is Big,
        _ => false,
    }
}

/// The bytes of element `i`, least significant first.
pub open spec fn element_of(d: DatatypeView, data: Seq<u8>, i: int) -> Seq<u8> {
    let bytes = data.subrange(i * d.size, (i + 1) * d.size);
    if stored_big(d) {
        bytes.reverse()
    } else {
        bytes
    }
}

/// The numbers that the elements spell, without regard to a sign.
pub open spec fn numbers_of(d: DatatypeView, data: Seq<u8>) -> Seq<nat> {
    Seq::new((data.len() / d.size as nat), |i: int| le_value(element_of(d, data, i)))
}

/// The number that a bit pattern of `size` bytes stands for, kept in 64 bits.
///
/// A signed pattern is a two's complement. An unsigned one stands for itself,
/// and only one that needs all 64 bits wraps.
pub open spec fn kept(n: nat, size: nat, signed: bool) -> int {
    if (signed || size == 8) && n >= pow256(size) / 2 {
        n - pow256(size)
    } else {
        n as int
    }
}

/// The values of an integer attribute.
pub open spec fn ints_of(d: DatatypeView, data: Seq<u8>) -> std::result::Result<
    Seq<i64>,
    ErrorView,
> {
    match d.class {
        ClassView::FixedPoint { signed, .. } => if d.size == 0 || d.size > 8 {
            Err(ErrorView::Unsupported(decimal(d.size as nat) + "-byte integer attribute"@))
        } else {
            Ok(
                Seq::new(
                    numbers_of(d, data).len(),
                    |i: int| kept(numbers_of(d, data)[i], d.size as nat, signed) as i64,
                ),
            )
        },
        _ => Err(ErrorView::Unsupported("attribute is not an integer"@)),
    }
}

/// Whether an attribute's values need their bytes reversed.
fn needs_swap(datatype: &Datatype) -> (r: bool)
    ensures
        r == stored_big(datatype@),
{
    match datatype.byte_order() {
        Some(ByteOrder::Big) => true,
        _ => false,
    }
}

/// Take one element's bytes, least significant first.
fn element(datatype: &Datatype, data: &[u8], index: usize) -> (r: Option<Vec<u8>>)
    ensures
        match r {
            Some(b) => datatype@.size > 0 && (index + 1) * datatype@.size <= data@.len() && b@
                == element_of(datatype@, data@, index as int) && b@.len() == datatype@.size,
            None => datatype@.size == 0 || (index + 1) * datatype@.size > data@.len(),
        },
{
    let size: usize = datatype.size as usize;
    if size == 0 || index >= data.len() / size {
        proof {
            if size > 0 {
                let (n, s, q) = (data@.len() as int, size as int, data@.len() as int / size as int);
                vstd::arithmetic::div_mod::lemma_fundamental_div_mod(n, s);
                assert((index + 1) * s > n) by (nonlinear_arith)
                    requires
                        n == s * q + n % s,
                        n % s < s,
                        index >= q,
                        s > 0,
                ;
            }
        }
        return None;
    }
    proof {
        let (n, s, q) = (data@.len() as int, size as int, data@.len() as int / size as int);
        vstd::arithmetic::div_mod::lemma_fundamental_div_mod(n, s);
        assert(0 <= index * s && index * s + s == (index + 1) * s <= n) by (nonlinear_arith)
            requires
                n == s * q + n % s,
                0 <= n % s,
                index + 1 <= q,
                s > 0,
        ;
        assert(n <= usize::MAX) by {
            assert(data.len() <= usize::MAX);
        }
    }
    let raw = slice_subrange(data, index * size, index * size + size);
    if needs_swap(datatype) {
        let mut out: Vec<u8> = Vec::new();
        while out.len() < size
            invariant
                raw@.len() == size,
                out@.len() <= size,
                out@ == raw@.reverse().take(out@.len() as int),
            decreases size - out@.len(),
        {
            out.push(raw[size - 1 - out.len()]);
            assert(out@ =~= raw@.reverse().take(out@.len() as int));
        }
        assert(out@ =~= raw@.reverse());
        Some(out)
    } else {
        Some(slice_to_vec(raw))
    }
}

proof fn lemma_count(len: int, size: int, index: int)
    requires
        0 < size,
        0 <= index < len / size,
    ensures
        (index + 1) * size <= len,
{
    let q = len / size;
    vstd::arithmetic::div_mod::lemma_fundamental_div_mod(len, size);
    assert((index + 1) * size <= len) by (nonlinear_arith)
        requires
            len == size * q + len % size,
            0 <= len % size,
            index + 1 <= q,
            size > 0,
    ;
}

/// The numbers that the elements spell, without regard to a sign.
fn numbers(datatype: &Datatype, data: &[u8]) -> (r: Vec<u64>)
    requires
        0 < datatype@.size <= 8,
    ensures
        r@.len() == numbers_of(datatype@, data@).len(),
        forall|i: int| 0 <= i < r@.len() ==> #[trigger] r@[i] == numbers_of(datatype@, data@)[i],
{
    let ghost want = numbers_of(datatype@, data@);
    let count: usize = data.len() / datatype.size as usize;
    let mut out: Vec<u64> = Vec::new();
    while out.len() < count
        invariant
            0 < datatype@.size <= 8,
            want == numbers_of(datatype@, data@),
            count == want.len() == data@.len() / datatype@.size as nat,
            out@.len() <= count,
            forall|i: int| 0 <= i < out@.len() ==> #[trigger] out@[i] == want[i],
        decreases count - out@.len(),
    {
        let i: usize = out.len();
        proof {
            lemma_count(data@.len() as int, datatype@.size as int, i as int);
        }
        match element(datatype, data, i) {
            Some(bytes) => {
                out.push(from_le(bytes.as_slice()));
            },
            None => {
                assert(false);
            },
        }
    }
    out
}

/// The number that a bit pattern of `size` bytes stands for, kept in 64 bits.
pub fn keep(n: u64, size: u32, signed: bool) -> (r: i64)
    requires
        0 < size <= 8,
        n < pow256(size as nat),
    ensures
        r == kept(n as nat, size as nat, signed),
{
    let mut full: i128 = 1;
    let mut i: u32 = 0;
    while i < size
        invariant
            i <= size <= 8,
            full == pow256(i as nat),
        decreases size - i,
    {
        proof {
            lemma_pow256_monotonic(i as nat, 8);
            lemma_pow256_values();
        }
        full = full * 256;
        i = i + 1;
    }
    proof {
        lemma_pow256_monotonic(size as nat, 8);
        if size < 8 {
            lemma_pow256_monotonic(size as nat, 7);
        }
        lemma_pow256_values();
    }
    let v: i128 = n as i128;
    if (signed || size == 8) && v >= full / 2 {
        (v - full) as i64
    } else {
        v as i64
    }
}

/// Decode an integer attribute.
pub fn decode_ints(datatype: &Datatype, data: &[u8]) -> (r: Result<Vec<i64>>)
    ensures
        seen(r) == ints_of(datatype@, data@),
{
    let signed: bool = match &datatype.class {
        DatatypeClass::FixedPoint { signed, .. } => *signed,
        _ => {
            return Err(Error::unsupported("attribute is not an integer"));
        },
    };
    let size: u32 = datatype.size;
    if size == 0 || size > 8 {
        let m = add_number(String::new(), size as u64);
        assert(Seq::<char>::empty() + decimal(size as nat) =~= decimal(size as nat));
        return Err(Error::Unsupported(add_text(m, "-byte integer attribute")));
    }
    let raw = numbers(datatype, data);
    let ghost want = ints_of(datatype@, data@)->Ok_0;
    let mut out: Vec<i64> = Vec::new();
    while out.len() < raw.len()
        invariant
            0 < size <= 8,
            size == datatype@.size,
            datatype@.class is FixedPoint,
            signed == datatype@.class->signed,
            raw@.len() == numbers_of(datatype@, data@).len(),
            forall|i: int|
                0 <= i < raw@.len() ==> #[trigger] raw@[i] == numbers_of(datatype@, data@)[i],
            want == ints_of(datatype@, data@)->Ok_0,
            out@.len() <= raw@.len(),
            out@ == want.take(out@.len() as int),
        decreases raw@.len() - out@.len(),
    {
        let i: usize = out.len();
        proof {
            lemma_count(data@.len() as int, size as int, i as int);
            crate::bytes::lemma_le_value_bound(element_of(datatype@, data@, i as int));
            assert(element_of(datatype@, data@, i as int).len() == size) by {
                let s = size as int;
                assert((i + 1) * s == i * s + s && 0 <= i * s) by (nonlinear_arith)
                    requires
                        s > 0,
                        i >= 0,
                ;
            }
        }
        out.push(keep(raw[i], size, signed));
        assert(out@ =~= want.take(out@.len() as int));
    }
    assert(out@ =~= want);
    Ok(out)
}

// ── text ───────────────────────────────────────────────────────────────────

/// The text of one fixed-length string: up to its first NUL, and without the
/// spaces before that where spaces are padding.
pub open spec fn fixed_text(raw: Seq<u8>, pad: StringPad) -> Seq<char> {
    let kept = raw.take(first_zero(raw, 0));
    utf8_lossy(
        if pad is SpacePad {
            without_trailing_spaces(kept)
        } else {
            kept
        },
    )
}

/// The strings of a fixed-length string attribute. A type of width zero holds
/// one empty string. A value shorter than one element is one string, if it
/// holds anything.
pub open spec fn texts_of(d: DatatypeView, data: Seq<u8>) -> Option<Seq<Seq<char>>> {
    match d.class {
        ClassView::String { pad, .. } => if d.size == 0 {
            Some(seq![Seq::empty()])
        } else if data.len() == 0 {
            Some(Seq::empty())
        } else if data.len() < d.size {
            Some(seq![fixed_text(data, pad)])
        } else {
            Some(
                Seq::new(
                    data.len() / d.size as nat,
                    |i: int| fixed_text(data.subrange(i * d.size, (i + 1) * d.size), pad),
                ),
            )
        },
        _ => None,
    }
}

/// All the parts, one behind the other.
pub open spec fn joined_texts(parts: Seq<Seq<char>>) -> Seq<char>
    decreases parts.len(),
{
    if parts.len() == 0 {
        Seq::empty()
    } else {
        joined_texts(parts.drop_last()) + parts.last()
    }
}

fn decode_fixed_text(raw: &[u8], pad: StringPad) -> (r: String)
    ensures
        r@ == fixed_text(raw@, pad),
{
    let end: usize = position_of_zero(raw, 0);
    proof {
        lemma_first_zero(raw@, 0);
    }
    let kept = slice_subrange(raw, 0, end);
    assert(kept@ =~= raw@.take(end as int));
    match pad {
        StringPad::SpacePad => {
            let keep: usize = trimmed_len(kept);
            let text = slice_subrange(kept, 0, keep);
            assert(text@ =~= kept@.take(keep as int));
            lossy_text(text)
        },
        _ => lossy_text(kept),
    }
}

/// Decode every value of a string attribute.
pub fn decode_all_text(datatype: &Datatype, data: &[u8]) -> (r: Option<Vec<String>>)
    ensures
        match texts_of(datatype@, data@) {
            Some(t) => r is Some && views(r->Some_0@) == t,
            None => r is None,
        },
{
    let pad: StringPad = match &datatype.class {
        DatatypeClass::String { pad, .. } => *pad,
        _ => {
            return None;
        },
    };
    let size: usize = datatype.size as usize;
    let mut out: Vec<String> = Vec::new();
    if size == 0 {
        out.push(String::new());
        assert(views(out@) =~= seq![Seq::<char>::empty()]);
        return Some(out);
    }
    if data.len() == 0 {
        return Some(out);
    }
    if data.len() < size {
        out.push(decode_fixed_text(data, pad));
        assert(views(out@) =~= seq![fixed_text(data@, pad)]);
        return Some(out);
    }
    let count: usize = data.len() / size;
    let ghost want = texts_of(datatype@, data@)->Some_0;
    while out.len() < count
        invariant
            size == datatype@.size,
            0 < size <= data@.len(),
            datatype@.class is String,
            pad == datatype@.class->String_pad,
            want == texts_of(datatype@, data@)->Some_0,
            count == data@.len() / size as nat,
            count == want.len(),
            out@.len() <= count,
            views(out@) == want.take(out@.len() as int),
        decreases count - out@.len(),
    {
        let i: usize = out.len();
        proof {
            lemma_count(data@.len() as int, size as int, i as int);
            let s = size as int;
            assert((i + 1) * s == i * s + s && 0 <= i * s) by (nonlinear_arith)
                requires
                    s > 0,
                    i >= 0,
            ;
            assert(data.len() <= usize::MAX);
        }
        out.push(decode_fixed_text(slice_subrange(data, i * size, i * size + size), pad));
        assert(views(out@) =~= want.take(out@.len() as int));
    }
    assert(views(out@) =~= want);
    Some(out)
}

/// Decode the first value of a string attribute.
pub fn decode_text(datatype: &Datatype, data: &[u8]) -> (r: Option<String>)
    ensures
        match texts_of(datatype@, data@) {
            Some(t) => if t.len() == 0 {
                r is None
            } else {
                r is Some && r->Some_0@ == t[0]
            },
            None => r is None,
        },
{
    let texts = decode_all_text(datatype, data)?;
    if texts.len() == 0 {
        return None;
    }
    assert(views(texts@)[0] == texts@[0]@);
    Some(texts[0].clone())
}

fn join_texts(parts: &Vec<String>) -> (r: String)
    ensures
        r@ == joined_texts(views(parts@)),
{
    let mut out: String = String::new();
    let mut i: usize = 0;
    assert(views(parts@).take(0) =~= Seq::<Seq<char>>::empty());
    while i < parts.len()
        invariant
            i <= parts@.len(),
            out@ == joined_texts(views(parts@).take(i as int)),
        decreases parts@.len() - i,
    {
        out.append(parts[i].as_str());
        i = i + 1;
        assert(views(parts@).take(i as int).drop_last() =~= views(parts@).take(i - 1));
    }
    assert(views(parts@).take(i as int) =~= views(parts@));
    out
}

// ── values ─────────────────────────────────────────────────────────────────

/// The value of an integer attribute, by its width and sign.
pub open spec fn integer_value(values: Seq<i64>, size: u32, signed: bool) -> Option<
    AttributeValueView,
> {
    let one = values.len() == 1;
    if signed && size == 1 {
        Some(
            if one {
                AttributeValueView::Schar(values[0] as i8)
            } else {
                AttributeValueView::Schars(Seq::new(values.len(), |i: int| values[i] as i8))
            },
        )
    } else if signed && size == 2 {
        Some(
            if one {
                AttributeValueView::Short(values[0] as i16)
            } else {
                AttributeValueView::Shorts(Seq::new(values.len(), |i: int| values[i] as i16))
            },
        )
    } else if signed && size == 4 {
        Some(
            if one {
                AttributeValueView::Int(values[0] as i32)
            } else {
                AttributeValueView::Ints(Seq::new(values.len(), |i: int| values[i] as i32))
            },
        )
    } else if signed && size == 8 {
        Some(
            if one {
                AttributeValueView::Longlong(values[0])
            } else {
                AttributeValueView::Longlongs(values)
            },
        )
    } else if size == 1 {
        Some(
            if one {
                AttributeValueView::Uchar(values[0] as u8)
            } else {
                AttributeValueView::Uchars(Seq::new(values.len(), |i: int| values[i] as u8))
            },
        )
    } else if size == 2 {
        Some(
            if one {
                AttributeValueView::Ushort(values[0] as u16)
            } else {
                AttributeValueView::Ushorts(Seq::new(values.len(), |i: int| values[i] as u16))
            },
        )
    } else if size == 4 {
        Some(
            if one {
                AttributeValueView::Uint(values[0] as u32)
            } else {
                AttributeValueView::Uints(Seq::new(values.len(), |i: int| values[i] as u32))
            },
        )
    } else if size == 8 {
        Some(
            if one {
                AttributeValueView::Ulonglong(values[0] as u64)
            } else {
                AttributeValueView::Ulonglongs(Seq::new(values.len(), |i: int| values[i] as u64))
            },
        )
    } else {
        None
    }
}

/// The value of a floating-point attribute, by its width, as bit patterns.
pub open spec fn float_value(patterns: Seq<nat>, size: u32) -> Option<AttributeValueView> {
    let one = patterns.len() == 1;
    if size == 4 {
        Some(
            if one {
                AttributeValueView::Float(patterns[0] as u32)
            } else {
                AttributeValueView::Floats(Seq::new(patterns.len(), |i: int| patterns[i] as u32))
            },
        )
    } else if size == 8 {
        Some(
            if one {
                AttributeValueView::Double(patterns[0] as u64)
            } else {
                AttributeValueView::Doubles(Seq::new(patterns.len(), |i: int| patterns[i] as u64))
            },
        )
    } else {
        None
    }
}

/// The value of an attribute, where its type can be decoded.
///
/// A netCDF `char` attribute is always one string, however many elements the
/// dataspace holds. A variable-length string lives outside the attribute;
/// `strings` is what following the attribute's pointers gave, if that worked. A
/// netCDF `string` attribute is always plural, even with one value.
pub open spec fn typed_value(
    d: DatatypeView,
    data: Seq<u8>,
    strings: Option<Seq<Seq<char>>>,
) -> Option<AttributeValueView> {
    match d.class {
        ClassView::String { .. } => Some(
            AttributeValueView::Str(joined_texts(texts_of(d, data)->Some_0)),
        ),
        ClassView::VariableLength { kind, .. } => match (kind, strings) {
            (VlenKind::String, Some(s)) => Some(AttributeValueView::Strs(s)),
            _ => None,
        },
        ClassView::FloatingPoint { .. } => float_value(numbers_of(d, data), d.size),
        ClassView::FixedPoint { signed, .. } => match ints_of(d, data) {
            Ok(values) => integer_value(values, d.size, signed),
            Err(_) => None,
        },
        _ => None,
    }
}

/// The value of an attribute. One that cannot be decoded stays as raw bytes.
pub open spec fn attribute_value(
    d: DatatypeView,
    data: Seq<u8>,
    strings: Option<Seq<Seq<char>>>,
) -> AttributeValueView {
    match typed_value(d, data, strings) {
        Some(v) => v,
        None => AttributeValueView::Raw(data),
    }
}

fn to_i8s(values: &Vec<i64>) -> (r: Vec<i8>)
    ensures
        r@ == Seq::new(values@.len(), |i: int| values@[i] as i8),
{
    let ghost want = Seq::new(values@.len(), |i: int| values@[i] as i8);
    let mut out: Vec<i8> = Vec::new();
    while out.len() < values.len()
        invariant
            want == Seq::new(values@.len(), |i: int| values@[i] as i8),
            out@.len() <= values@.len(),
            out@ == want.take(out@.len() as int),
        decreases values@.len() - out@.len(),
    {
        out.push(
            #[verifier::truncate]
            (values[out.len()] as i8),
        );
        assert(out@ =~= want.take(out@.len() as int));
    }
    assert(out@ =~= want);
    out
}

fn to_i16s(values: &Vec<i64>) -> (r: Vec<i16>)
    ensures
        r@ == Seq::new(values@.len(), |i: int| values@[i] as i16),
{
    let ghost want = Seq::new(values@.len(), |i: int| values@[i] as i16);
    let mut out: Vec<i16> = Vec::new();
    while out.len() < values.len()
        invariant
            want == Seq::new(values@.len(), |i: int| values@[i] as i16),
            out@.len() <= values@.len(),
            out@ == want.take(out@.len() as int),
        decreases values@.len() - out@.len(),
    {
        out.push(
            #[verifier::truncate]
            (values[out.len()] as i16),
        );
        assert(out@ =~= want.take(out@.len() as int));
    }
    assert(out@ =~= want);
    out
}

fn to_i32s(values: &Vec<i64>) -> (r: Vec<i32>)
    ensures
        r@ == Seq::new(values@.len(), |i: int| values@[i] as i32),
{
    let ghost want = Seq::new(values@.len(), |i: int| values@[i] as i32);
    let mut out: Vec<i32> = Vec::new();
    while out.len() < values.len()
        invariant
            want == Seq::new(values@.len(), |i: int| values@[i] as i32),
            out@.len() <= values@.len(),
            out@ == want.take(out@.len() as int),
        decreases values@.len() - out@.len(),
    {
        out.push(
            #[verifier::truncate]
            (values[out.len()] as i32),
        );
        assert(out@ =~= want.take(out@.len() as int));
    }
    assert(out@ =~= want);
    out
}

fn to_u8s(values: &Vec<i64>) -> (r: Vec<u8>)
    ensures
        r@ == Seq::new(values@.len(), |i: int| values@[i] as u8),
{
    let ghost want = Seq::new(values@.len(), |i: int| values@[i] as u8);
    let mut out: Vec<u8> = Vec::new();
    while out.len() < values.len()
        invariant
            want == Seq::new(values@.len(), |i: int| values@[i] as u8),
            out@.len() <= values@.len(),
            out@ == want.take(out@.len() as int),
        decreases values@.len() - out@.len(),
    {
        out.push(
            #[verifier::truncate]
            (values[out.len()] as u8),
        );
        assert(out@ =~= want.take(out@.len() as int));
    }
    assert(out@ =~= want);
    out
}

fn to_u16s(values: &Vec<i64>) -> (r: Vec<u16>)
    ensures
        r@ == Seq::new(values@.len(), |i: int| values@[i] as u16),
{
    let ghost want = Seq::new(values@.len(), |i: int| values@[i] as u16);
    let mut out: Vec<u16> = Vec::new();
    while out.len() < values.len()
        invariant
            want == Seq::new(values@.len(), |i: int| values@[i] as u16),
            out@.len() <= values@.len(),
            out@ == want.take(out@.len() as int),
        decreases values@.len() - out@.len(),
    {
        out.push(
            #[verifier::truncate]
            (values[out.len()] as u16),
        );
        assert(out@ =~= want.take(out@.len() as int));
    }
    assert(out@ =~= want);
    out
}

fn to_u32s(values: &Vec<i64>) -> (r: Vec<u32>)
    ensures
        r@ == Seq::new(values@.len(), |i: int| values@[i] as u32),
{
    let ghost want = Seq::new(values@.len(), |i: int| values@[i] as u32);
    let mut out: Vec<u32> = Vec::new();
    while out.len() < values.len()
        invariant
            want == Seq::new(values@.len(), |i: int| values@[i] as u32),
            out@.len() <= values@.len(),
            out@ == want.take(out@.len() as int),
        decreases values@.len() - out@.len(),
    {
        out.push(
            #[verifier::truncate]
            (values[out.len()] as u32),
        );
        assert(out@ =~= want.take(out@.len() as int));
    }
    assert(out@ =~= want);
    out
}

fn to_u64s(values: &Vec<i64>) -> (r: Vec<u64>)
    ensures
        r@ == Seq::new(values@.len(), |i: int| values@[i] as u64),
{
    let ghost want = Seq::new(values@.len(), |i: int| values@[i] as u64);
    let mut out: Vec<u64> = Vec::new();
    while out.len() < values.len()
        invariant
            want == Seq::new(values@.len(), |i: int| values@[i] as u64),
            out@.len() <= values@.len(),
            out@ == want.take(out@.len() as int),
        decreases values@.len() - out@.len(),
    {
        out.push(
            #[verifier::truncate]
            (values[out.len()] as u64),
        );
        assert(out@ =~= want.take(out@.len() as int));
    }
    assert(out@ =~= want);
    out
}

fn decode_integers(values: Vec<i64>, size: u32, signed: bool) -> (r: Option<AttributeValue>)
    ensures
        crate::views::option_view(r) == integer_value(values@, size, signed),
{
    let one: bool = values.len() == 1;
    if signed {
        match size {
            1 => {
                let v = to_i8s(&values);
                Some(if one { AttributeValue::Schar(v[0]) } else { AttributeValue::Schars(v) })
            },
            2 => {
                let v = to_i16s(&values);
                Some(if one { AttributeValue::Short(v[0]) } else { AttributeValue::Shorts(v) })
            },
            4 => {
                let v = to_i32s(&values);
                Some(if one { AttributeValue::Int(v[0]) } else { AttributeValue::Ints(v) })
            },
            8 => Some(
                if one {
                    AttributeValue::Longlong(values[0])
                } else {
                    AttributeValue::Longlongs(values)
                },
            ),
            _ => None,
        }
    } else {
        match size {
            1 => {
                let v = to_u8s(&values);
                Some(if one { AttributeValue::Uchar(v[0]) } else { AttributeValue::Uchars(v) })
            },
            2 => {
                let v = to_u16s(&values);
                Some(if one { AttributeValue::Ushort(v[0]) } else { AttributeValue::Ushorts(v) })
            },
            4 => {
                let v = to_u32s(&values);
                Some(if one { AttributeValue::Uint(v[0]) } else { AttributeValue::Uints(v) })
            },
            8 => {
                let v = to_u64s(&values);
                Some(
                    if one { AttributeValue::Ulonglong(v[0]) } else { AttributeValue::Ulonglongs(v) },
                )
            },
            _ => None,
        }
    }
}

fn decode_floats(datatype: &Datatype, data: &[u8]) -> (r: Option<AttributeValue>)
    ensures
        crate::views::option_view(r) == float_value(numbers_of(datatype@, data@), datatype@.size),
{
    let size: u32 = datatype.size;
    if size != 4 && size != 8 {
        return None;
    }
    let v = numbers(datatype, data);
    let ghost patterns = numbers_of(datatype@, data@);
    if size == 8 {
        assert(v@ =~= Seq::new(patterns.len(), |i: int| patterns[i] as u64));
        return Some(if v.len() == 1 { AttributeValue::Double(v[0]) } else { AttributeValue::Doubles(v) });
    }
    let ghost want = Seq::new(patterns.len(), |i: int| patterns[i] as u32);
    let mut out: Vec<u32> = Vec::new();
    while out.len() < v.len()
        invariant
            patterns == numbers_of(datatype@, data@),
            v@.len() == patterns.len(),
            forall|i: int| 0 <= i < v@.len() ==> #[trigger] v@[i] == patterns[i],
            want == Seq::new(patterns.len(), |i: int| patterns[i] as u32),
            out@.len() <= v@.len(),
            out@ == want.take(out@.len() as int),
        decreases v@.len() - out@.len(),
    {
        let n: u64 = v[out.len()];
        out.push(
            #[verifier::truncate]
            (n as u32),
        );
        assert(out@ =~= want.take(out@.len() as int));
    }
    assert(out@ =~= want);
    Some(if out.len() == 1 { AttributeValue::Float(out[0]) } else { AttributeValue::Floats(out) })
}

/// Decode an attribute's bytes according to its datatype.
///
/// `strings` is what following the attribute's pointers into the global heap
/// gave, for a variable-length string.
pub fn decode_typed(datatype: &Datatype, data: &[u8], strings: Option<Vec<String>>) -> (r: Option<
    AttributeValue,
>)
    ensures
        crate::views::option_view(r) == typed_value(
            datatype@,
            data@,
            match strings {
                Some(s) => Some(views(s@)),
                None => None,
            },
        ),
{
    match &datatype.class {
        // A netCDF `char` attribute is always one string, however many
        // elements the dataspace holds, so join the parts rather than fold on
        // count.
        DatatypeClass::String { .. } => {
            let parts = decode_all_text(datatype, data)?;
            Some(AttributeValue::Str(join_texts(&parts)))
        },
        DatatypeClass::VariableLength { kind, .. } => match (*kind, strings) {
            (VlenKind::String, Some(s)) => Some(AttributeValue::Strs(s)),
            _ => None,
        },
        DatatypeClass::FloatingPoint { .. } => decode_floats(datatype, data),
        DatatypeClass::FixedPoint { signed, .. } => match decode_ints(datatype, data) {
            Ok(values) => decode_integers(values, datatype.size, *signed),
            Err(_) => None,
        },
        _ => None,
    }
}

/// Decode an attribute's bytes according to its datatype, or keep them as they
/// are.
pub fn decode_value(datatype: &Datatype, data: &[u8], strings: Option<Vec<String>>) -> (r:
    AttributeValue)
    ensures
        r@ == attribute_value(
            datatype@,
            data@,
            match strings {
                Some(s) => Some(views(s@)),
                None => None,
            },
        ),
{
    match decode_typed(datatype, data, strings) {
        Some(v) => v,
        None => AttributeValue::Raw(slice_to_vec(data)),
    }
}

// ── what decoding keeps ────────────────────────────────────────────────────

/// One number gets the singular variant and any other count the plural one,
/// and a decoded value holds as many numbers as the attribute has elements.
pub proof fn numbers_keep_their_count(d: DatatypeView, data: Seq<u8>)
    requires
        d.class is FixedPoint || d.class is FloatingPoint,
        d.size == 4 || d.size == 8 || (d.class is FixedPoint && (d.size == 1 || d.size == 2)),
    ensures
        attribute_value(d, data, None).count() == data.len() / d.size as nat,
        !(attribute_value(d, data, None) is Raw),
{
}

/// An integer attribute gets the type of the width and sign that the file
/// stores it in.
pub proof fn integers_keep_their_type(d: DatatypeView, data: Seq<u8>)
    requires
        d.class is FixedPoint,
        d.size == 1 || d.size == 2 || d.size == 4 || d.size == 8,
    ensures
        attribute_value(d, data, None).kind() == crate::dtype::dtype_of(d),
{
    assert(d.size as u8 == d.size);
}

/// A `char` attribute is one string.
pub proof fn characters_are_one_string(
    d: DatatypeView,
    data: Seq<u8>,
    strings: Option<Seq<Seq<char>>>,
)
    requires
        d.class is String,
    ensures
        attribute_value(d, data, strings) is Str,
        attribute_value(d, data, strings).count() == 1,
{
}

/// Value number `i` of an integer attribute.
pub open spec fn integer_at(v: AttributeValueView, i: int) -> int {
    match v {
        AttributeValueView::Schar(x) => x as int,
        AttributeValueView::Schars(s) => s[i] as int,
        AttributeValueView::Short(x) => x as int,
        AttributeValueView::Shorts(s) => s[i] as int,
        AttributeValueView::Int(x) => x as int,
        AttributeValueView::Ints(s) => s[i] as int,
        AttributeValueView::Longlong(x) => x as int,
        AttributeValueView::Longlongs(s) => s[i] as int,
        AttributeValueView::Uchar(x) => x as int,
        AttributeValueView::Uchars(s) => s[i] as int,
        AttributeValueView::Ushort(x) => x as int,
        AttributeValueView::Ushorts(s) => s[i] as int,
        AttributeValueView::Uint(x) => x as int,
        AttributeValueView::Uints(s) => s[i] as int,
        AttributeValueView::Ulonglong(x) => x as int,
        AttributeValueView::Ulonglongs(s) => s[i] as int,
        _ => 0,
    }
}

/// Every integer survives decoding: a signed one as the two's complement that
/// its bytes spell, an unsigned one as the number itself, also where that is
/// larger than any signed 64-bit number.
pub proof fn every_integer_survives(d: DatatypeView, data: Seq<u8>, i: int)
    requires
        d.class is FixedPoint,
        d.size == 1 || d.size == 2 || d.size == 4 || d.size == 8,
        0 <= i < data.len() / d.size as nat,
    ensures
        ({
            let n = numbers_of(d, data)[i];
            let v = integer_at(attribute_value(d, data, None), i);
            if d.class->signed && n >= pow256(d.size as nat) / 2 {
                v == n - pow256(d.size as nat)
            } else {
                v == n
            }
        }),
{
    lemma_pow256_values();
    let n = numbers_of(d, data)[i];
    lemma_count(data.len() as int, d.size as int, i);
    let s = d.size as int;
    assert((i + 1) * s == i * s + s && 0 <= i * s) by (nonlinear_arith)
        requires
            s > 0,
            i >= 0,
    ;
    crate::bytes::lemma_le_value_bound(element_of(d, data, i));
    let kept = kept(n, d.size as nat, d.class->signed);
    assert(i64::MIN <= kept <= i64::MAX);
    let v = kept as i64;
    assert(v < 0 ==> (v as u64) == v + 0x1_0000_0000_0000_0000) by (bit_vector);
}

} // verus!
