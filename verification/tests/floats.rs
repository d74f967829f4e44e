//! Numbers in another type than the stored one.

use oxcdf::element::{convert, Element, Scalar};
use oxcdf::{DType, F32, F64};

const DOUBLES: [f64; 34] = [
    0.0,
    -0.0,
    1.0,
    -1.0,
    0.5,
    -0.5,
    0.999999999999,
    1.5,
    2.5,
    -2.5,
    126.9,
    127.0,
    127.99,
    128.0,
    -128.9,
    -129.0,
    255.5,
    256.0,
    65535.7,
    -32768.5,
    2147483647.5,
    -2147483649.0,
    4294967295.9,
    9007199254740993.0,
    9223372036854775807.0,
    -9223372036854775808.0,
    18446744073709551615.0,
    1e300,
    -1e300,
    1e-300,
    f64::MIN_POSITIVE,
    5e-324,
    f64::MAX,
    0.1,
];

const SINGLES: [f32; 14] = [
    0.0,
    -0.0,
    1.0,
    -1.5,
    0.1,
    127.5,
    -300.25,
    3.4e38,
    -3.4e38,
    1e-45,
    1.17549435e-38,
    16777217.0,
    65504.0,
    1e10,
];

fn doubles() -> Vec<f64> {
    let mut out = DOUBLES.to_vec();
    out.extend([f64::INFINITY, f64::NEG_INFINITY]);
    // A walk over patterns of every size, far from round numbers.
    let mut bits = 0x0123_4567_89ab_cdefu64;
    for _ in 0..2000 {
        bits = bits
            .wrapping_mul(6364136223846793005)
            .wrapping_add(1442695040888963407);
        let x = f64::from_bits(bits);
        if !x.is_nan() {
            out.push(x);
            // The same fraction with an exponent near that of small floats, so
            // that rounding to the narrow width meets every case.
            let near = (bits & 0x800f_ffff_ffff_ffff) | ((870 + bits % 60) << 52);
            out.push(f64::from_bits(near));
        }
    }
    out
}

fn singles() -> Vec<f32> {
    let mut out = SINGLES.to_vec();
    out.extend([f32::INFINITY, f32::NEG_INFINITY]);
    let mut bits = 0x89ab_cdefu32;
    for _ in 0..2000 {
        bits = bits.wrapping_mul(1664525).wrapping_add(1013904223);
        let x = f32::from_bits(bits);
        if !x.is_nan() {
            out.push(x);
        }
    }
    out
}

fn integers() -> Vec<i64> {
    let mut out = vec![0, 1, -1, 127, 128, -128, -129, i64::MAX, i64::MIN];
    for shift in 0..63 {
        for d in [-3i64, -2, -1, 0, 1, 2, 3] {
            out.push((1i64 << shift).wrapping_add(d));
            out.push((-(1i64 << shift)).wrapping_add(d));
        }
    }
    // Halfway between two 64-bit floats, and next to it.
    out.extend([
        (1 << 53) + 1,
        (1 << 53) + 3,
        (1 << 54) + 2,
        (1 << 54) + 6,
        (1 << 62) + (1 << 9),
    ]);
    out
}

#[test]
fn a_double_converts_to_every_integer_type() {
    for x in doubles() {
        let s = Scalar::Double(x.to_bits());
        assert_eq!(convert::<i8>(s), x as i8, "{x}");
        assert_eq!(convert::<i16>(s), x as i16, "{x}");
        assert_eq!(convert::<i32>(s), x as i32, "{x}");
        assert_eq!(convert::<i64>(s), x as i64, "{x}");
        assert_eq!(convert::<u8>(s), x as u8, "{x}");
        assert_eq!(convert::<u16>(s), x as u16, "{x}");
        assert_eq!(convert::<u32>(s), x as u32, "{x}");
        assert_eq!(convert::<u64>(s), x as u64, "{x}");
    }
}

#[test]
fn a_single_converts_to_every_integer_type() {
    for x in singles() {
        let s = Scalar::Float(x.to_bits());
        assert_eq!(convert::<i8>(s), x as i8, "{x}");
        assert_eq!(convert::<i16>(s), x as i16, "{x}");
        assert_eq!(convert::<i32>(s), x as i32, "{x}");
        assert_eq!(convert::<i64>(s), x as i64, "{x}");
        assert_eq!(convert::<u8>(s), x as u8, "{x}");
        assert_eq!(convert::<u16>(s), x as u16, "{x}");
        assert_eq!(convert::<u32>(s), x as u32, "{x}");
        assert_eq!(convert::<u64>(s), x as u64, "{x}");
    }
}

#[test]
fn what_is_not_a_number_converts_to_zero() {
    assert_eq!(convert::<i32>(Scalar::Double(f64::NAN.to_bits())), 0);
    assert_eq!(convert::<u8>(Scalar::Float(f32::NAN.to_bits())), 0);
}

#[test]
fn floats_round_to_the_nearest() {
    for x in doubles() {
        let s = Scalar::Double(x.to_bits());
        assert_eq!(convert::<F32>(s).bits, (x as f32).to_bits(), "{x}");
        assert_eq!(convert::<F64>(s).bits, x.to_bits(), "{x}");
    }
    for x in singles() {
        let s = Scalar::Float(x.to_bits());
        assert_eq!(convert::<F64>(s).bits, (x as f64).to_bits(), "{x}");
        assert_eq!(convert::<F32>(s).bits, x.to_bits(), "{x}");
        // And back again.
        assert_eq!(convert::<F64>(s).narrow().bits, x.to_bits(), "{x}");
    }
}

#[test]
fn what_is_not_a_number_stays_so() {
    for bits in [0x7fc0_0000u32, 0xffc0_0001, 0x7f80_0001, 0x7fff_ffff] {
        let wide = F32 { bits }.widen();
        assert!(f64::from_bits(wide.bits).is_nan());
        assert!(f32::from_bits(wide.narrow().bits).is_nan());
        assert_eq!(wide.bits >> 63, (bits >> 31) as u64);
    }
}

#[test]
fn integers_round_to_the_nearest_float() {
    for n in integers() {
        let s = Scalar::Signed(n);
        assert_eq!(convert::<F64>(s).bits, (n as f64).to_bits(), "{n}");
        assert_eq!(convert::<F32>(s).bits, (n as f32).to_bits(), "{n}");
        let u = n as u64;
        let s = Scalar::Unsigned(u);
        assert_eq!(convert::<F64>(s).bits, (u as f64).to_bits(), "{u}");
        assert_eq!(convert::<F32>(s).bits, (u as f32).to_bits(), "{u}");
    }
}

#[test]
fn integers_keep_their_low_bits() {
    for n in integers() {
        let s = Scalar::Signed(n);
        assert_eq!(convert::<i8>(s), n as i8);
        assert_eq!(convert::<i16>(s), n as i16);
        assert_eq!(convert::<i32>(s), n as i32);
        assert_eq!(convert::<u8>(s), n as u8);
        assert_eq!(convert::<u32>(s), n as u32);
        assert_eq!(convert::<u64>(s), n as u64);
        assert_eq!(convert::<i64>(Scalar::Unsigned(n as u64)), n);
    }
}

#[test]
fn whole_numbers_up_to_two_to_the_53_survive() {
    for n in integers() {
        if n.unsigned_abs() <= 1 << 53 {
            let x = convert::<F64>(Scalar::Signed(n));
            assert_eq!(convert::<i64>(Scalar::Double(x.bits)), n);
        }
    }
    // The next one does not.
    let x = convert::<F64>(Scalar::Signed((1 << 53) + 1));
    assert_eq!(convert::<i64>(Scalar::Double(x.bits)), 1 << 53);
}

#[test]
fn every_element_type_names_its_stored_type() {
    fn check<T: Element>(want: DType, name: &str) {
        assert_eq!(T::dtype(), want);
        assert_eq!(T::name(), name);
        assert_eq!(T::dtype().name(), name);
    }
    check::<i8>(DType::Int(1), "i8");
    check::<i16>(DType::Int(2), "i16");
    check::<i32>(DType::Int(4), "i32");
    check::<i64>(DType::Int(8), "i64");
    check::<u8>(DType::Uint(1), "u8");
    check::<u16>(DType::Uint(2), "u16");
    check::<u32>(DType::Uint(4), "u32");
    check::<u64>(DType::Uint(8), "u64");
    check::<F32>(DType::Float(4), "f32");
    check::<F64>(DType::Float(8), "f64");
}

#[test]
fn a_stored_type_keeps_its_bits() {
    assert_eq!((-1i8).to_bits(), 0xff);
    assert_eq!(i16::MIN.to_bits(), 0x8000);
    assert_eq!((-2i32).to_bits(), 0xffff_fffe);
    assert_eq!((-1i64).to_bits(), u64::MAX);
    assert_eq!(200u8.to_bits(), 200);
    assert_eq!(F32 { bits: 7 }.to_bits(), 7);
}
