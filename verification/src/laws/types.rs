//! What a stored type is called.

use vstd::prelude::*;

#[allow(unused_imports)]
use crate::classic::{datatype_of, kind_of, NcType};
#[allow(unused_imports)]
use crate::dtype::{dtype_of, DType};
#[allow(unused_imports)]
use crate::laws::classic::{bytes_each, type_named};
#[allow(unused_imports)]
use crate::laws::datatypes::{
    a_float_says_its_byte_order, a_string_says_its_padding_and_characters,
    an_integer_says_its_byte_order_and_sign, bit_set, four, has_head,
};
#[allow(unused_imports)]
use crate::laws::nested::{a_variable_length_type_says_what_it_holds, is_type};
#[allow(unused_imports)]
use crate::laws::storage::is_big;
#[allow(unused_imports)]
use crate::message::datatype::{datatype_at, ClassView, DatatypeView};
#[allow(unused_imports)]
use crate::numbers::Kind;

verus! {

/// A number of up to 255 bytes keeps its width, an integer its sign; a string of one
/// byte is a character, and a wider one a string of that width.
pub proof fn a_type_is_told_by_its_bytes(b: Seq<u8>, p: int)
    requires
        has_head(b, p),
        datatype_at(b, p) is Ok,
    ensures
        ({
            let t = dtype_of(datatype_at(b, p)->Ok_0.0);
            let size = four(b, p + 4);
            &&& b[p] % 16 == 0 && size <= 255 && bit_set(b[p + 1], 8) ==> (t matches DType::Int(w)
                && w == size)
            &&& b[p] % 16 == 0 && size <= 255 && !bit_set(b[p + 1], 8) ==> (t matches DType::Uint(w)
                && w == size)
            &&& b[p] % 16 == 1 && size <= 255 ==> (t matches DType::Float(w) && w == size)
            &&& b[p] % 16 == 3 && size == 1 ==> t is Char
            &&& b[p] % 16 == 3 && size != 1 ==> (t matches DType::FixedString(w) && w == size)
        }),
{
    if b[p] % 16 == 0 {
        an_integer_says_its_byte_order_and_sign(b, p);
    } else if b[p] % 16 == 1 {
        a_float_says_its_byte_order(b, p);
    } else if b[p] % 16 == 3 {
        a_string_says_its_padding_and_characters(b, p);
    }
}

/// Values of any length are strings, or lists of what stands inside.
pub proof fn a_list_is_told_by_its_bytes(b: Seq<u8>, p: int, base: DatatypeView, q: int)
    requires
        has_head(b, p),
        b[p] % 16 == 9,
        is_type(b, p + 8, base, q),
        datatype_at(b, p) is Ok,
    ensures
        ({
            let t = dtype_of(datatype_at(b, p)->Ok_0.0);
            &&& b[p + 1] % 16 == 1 ==> t is String
            &&& b[p + 1] % 16 == 0 ==> (t matches DType::Vlen(inner) && *inner == dtype_of(base))
        }),
{
    a_variable_length_type_says_what_it_holds(b, p, base, q);
}

/// The types of a classic file: what each code is called, how wide its elements are,
/// that the most significant byte comes first, and where the parts of a float are. The
/// bias of the exponent is half its range, and sign, exponent and fraction fill the
/// element.
pub proof fn a_classic_type_is_told_by_its_code(code: int)
    requires
        1 <= code <= 11,
    ensures
        ({
            let t = type_named(code);
            let d = datatype_of(t);
            &&& d.size == bytes_each(t)
            &&& dtype_of(d) is Int <==> code == 1 || code == 3 || code == 4 || code == 10
            &&& dtype_of(d) is Uint <==> code == 7 || code == 8 || code == 9 || code == 11
            &&& dtype_of(d) is Float <==> code == 5 || code == 6
            &&& dtype_of(d) is Char <==> code == 2
            &&& dtype_of(d) matches DType::Int(w) ==> w == bytes_each(t)
            &&& dtype_of(d) matches DType::Uint(w) ==> w == bytes_each(t)
            &&& dtype_of(d) matches DType::Float(w) ==> w == bytes_each(t)
            &&& code != 2 ==> is_big(d)
            &&& kind_of(t) is Signed <==> dtype_of(d) is Int
            &&& kind_of(t) is Float <==> dtype_of(d) is Float
            &&& d.class matches ClassView::FixedPoint { bit_offset, bit_precision, .. } ==> bit_offset
                == 0 && bit_precision == 8 * bytes_each(t)
            &&& d.class matches ClassView::FloatingPoint {
                bit_offset,
                bit_precision,
                exponent_location,
                exponent_size,
                mantissa_location,
                mantissa_size,
                exponent_bias,
                sign_location,
                ..
            } ==> {
                &&& bit_offset == 0
                &&& bit_precision == 8 * bytes_each(t)
                &&& mantissa_location == 0
                &&& exponent_location == mantissa_size
                &&& sign_location == exponent_location + exponent_size
                &&& sign_location + 1 == bit_precision
                &&& code == 5 ==> exponent_size == 8 && exponent_bias == 0x7f
                &&& code == 6 ==> exponent_size == 11 && exponent_bias == 0x3ff
            }
        }),
{
}

} // verus!
