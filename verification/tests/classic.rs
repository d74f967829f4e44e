//! The classic formats.

use std::sync::Arc;

use oxcdf::classic::{decode_numbers, pad4, text_rows, ClassicFile, ClassicVariable, NcType};
use oxcdf::{
    AttributeValue, Container, DType, Error, Extent, Extents, Hyperslab, MemorySource, NetcdfFile,
    F32, F64, HDF5_SIGNATURE,
};

fn number(out: &mut Vec<u8>, n: u32) {
    out.extend_from_slice(&n.to_be_bytes());
}

fn name(out: &mut Vec<u8>, s: &str) {
    number(out, s.len() as u32);
    out.extend_from_slice(s.as_bytes());
    while out.len() % 4 != 0 {
        out.push(0);
    }
}

/// An attribute: its type code, its number of values and the values.
fn attribute(out: &mut Vec<u8>, n: &str, code: u32, count: u32, values: &[u8]) {
    name(out, n);
    number(out, code);
    number(out, count);
    out.extend_from_slice(values);
    while out.len() % 4 != 0 {
        out.push(0);
    }
}

struct Var {
    name: &'static str,
    dims: &'static [u32],
    code: u32,
    vsize: u32,
}

const VARS: [Var; 5] = [
    Var {
        name: "time",
        dims: &[0],
        code: 6,
        vsize: 8,
    },
    Var {
        name: "pressure",
        dims: &[0, 1],
        code: 5,
        vsize: 12,
    },
    Var {
        name: "count",
        dims: &[1],
        code: 4,
        vsize: 12,
    },
    Var {
        name: "flag",
        dims: &[0, 1],
        code: 3,
        vsize: 8,
    },
    Var {
        name: "label",
        dims: &[1, 2],
        code: 2,
        vsize: 24,
    },
];

/// The header, with each variable's data at the place `begins` gives.
fn header(wide: bool, begins: &[u64; 5]) -> Vec<u8> {
    let mut h = b"CDF".to_vec();
    h.push(if wide { 2 } else { 1 });
    number(&mut h, 4); // records

    number(&mut h, 0x0A);
    number(&mut h, 3);
    for (n, len) in [("time", 0), ("level", 3), ("name_strlen", 8)] {
        name(&mut h, n);
        number(&mut h, len);
    }

    number(&mut h, 0x0C);
    number(&mut h, 2);
    attribute(&mut h, "title", 2, 22, b"classic format fixture");
    attribute(&mut h, "version", 4, 1, &3i32.to_be_bytes());

    number(&mut h, 0x0B);
    number(&mut h, 5);
    for (i, v) in VARS.iter().enumerate() {
        name(&mut h, v.name);
        number(&mut h, v.dims.len() as u32);
        for d in v.dims {
            number(&mut h, *d);
        }
        if v.name == "pressure" {
            number(&mut h, 0x0C);
            number(&mut h, 2);
            attribute(&mut h, "units", 2, 4, b"dbar");
            attribute(&mut h, "_FillValue", 5, 1, &(-999.0f32).to_be_bytes());
        } else {
            number(&mut h, 0);
            number(&mut h, 0);
        }
        number(&mut h, v.code);
        number(&mut h, v.vsize);
        if wide {
            h.extend_from_slice(&begins[i].to_be_bytes());
        } else {
            number(&mut h, begins[i] as u32);
        }
    }
    h
}

/// A file with fixed variables first and the interleaved records behind them.
fn fixture(wide: bool) -> Vec<u8> {
    let fixed = header(wide, &[0; 5]).len() as u64;
    let records = fixed + 12 + 24;
    let begins = [records, records + 8, fixed, records + 20, fixed + 12];
    let mut out = header(wide, &begins);
    for v in [10i32, 20, 30] {
        out.extend_from_slice(&v.to_be_bytes());
    }
    for s in ["surface", "middle", "bottom"] {
        let mut b = s.as_bytes().to_vec();
        b.resize(8, 0);
        out.extend_from_slice(&b);
    }
    for r in 0..4 {
        out.extend_from_slice(&(r as f64).to_be_bytes());
        for c in 0..3 {
            out.extend_from_slice(&((r * 3 + c) as f32 + 0.5).to_be_bytes());
        }
        for c in 0..3 {
            out.extend_from_slice(&((r * 3 + c + 1) as i16).to_be_bytes());
        }
        out.extend_from_slice(&[0, 0]);
    }
    out
}

fn open(wide: bool) -> ClassicFile<MemorySource> {
    ClassicFile::from_source(Arc::new(MemorySource::new(fixture(wide)))).unwrap()
}

/// Floats as this machine has them.
fn plain(values: &[F64]) -> Vec<f64> {
    values.iter().map(|x| f64::from_bits(x.bits)).collect()
}

fn read_f64(file: &ClassicFile<MemorySource>, v: &ClassicVariable) -> Vec<f64> {
    plain(&file.read_f64(v).unwrap())
}

#[test]
fn nc_type_sizes_are_right() {
    assert_eq!(NcType::Byte.size(), 1);
    assert_eq!(NcType::Short.size(), 2);
    assert_eq!(NcType::Float.size(), 4);
    assert_eq!(NcType::Double.size(), 8);
    assert!(NcType::Int.is_signed_integer());
    assert!(!NcType::Float.is_integer());
}

#[test]
fn pads_to_four_byte_boundaries() {
    assert_eq!(pad4(0), 0);
    assert_eq!(pad4(1), 4);
    assert_eq!(pad4(4), 4);
    assert_eq!(pad4(5), 8);
}

#[test]
fn reads_the_cdf1_header() {
    let file = open(false);
    assert_eq!(file.container, Container::Cdf1);
    assert_eq!(file.record_count, 4);

    let names: Vec<&str> = file.dimensions.iter().map(|d| d.name.as_str()).collect();
    assert_eq!(names, vec!["time", "level", "name_strlen"]);
    assert!(file.dimension("time").unwrap().is_unlimited);
    assert_eq!(file.dimension("time").unwrap().len, 4);
    assert_eq!(file.dimension("level").unwrap().len, 3);

    let vars: Vec<&str> = file.variables.iter().map(|v| v.name.as_str()).collect();
    assert_eq!(vars, vec!["time", "pressure", "count", "flag", "label"]);
    assert_eq!(file.record_stride, 28);
}

#[test]
fn classic_reads_global_and_variable_attributes() {
    let file = open(false);
    assert_eq!(
        file.attribute("title").unwrap().text.as_deref(),
        Some("classic format fixture")
    );
    assert_eq!(plain(&file.attribute("version").unwrap().numbers), vec![3.0]);
    assert!(file.attribute("title").unwrap().numbers.is_empty());

    let p = file.variable("pressure").unwrap();
    assert_eq!(p.attribute("units").unwrap().text.as_deref(), Some("dbar"));
    assert_eq!(plain(&p.attribute("_FillValue").unwrap().numbers), vec![-999.0]);
    assert!(p.attribute("missing").is_none());
}

#[test]
fn reads_a_fixed_size_variable() {
    let file = open(false);
    let v = file.variable("count").unwrap();
    assert!(!v.is_record);
    assert_eq!(v.shape, vec![3]);
    assert_eq!(v.element_count(), 3);
    assert_eq!(read_f64(&file, v), vec![10.0, 20.0, 30.0]);
}

#[test]
fn reads_interleaved_record_variables() {
    let file = open(false);

    let t = file.variable("time").unwrap();
    assert!(t.is_record);
    assert_eq!(read_f64(&file, t), vec![0.0, 1.0, 2.0, 3.0]);

    let p = file.variable("pressure").unwrap();
    assert_eq!(p.shape, vec![4, 3]);
    let expected: Vec<f64> = (0..12).map(|i| i as f64 + 0.5).collect();
    assert_eq!(read_f64(&file, p), expected);

    let f = file.variable("flag").unwrap();
    let expected: Vec<f64> = (1..=12).map(|i| i as f64).collect();
    assert_eq!(read_f64(&file, f), expected);
}

#[test]
fn reads_character_variables_as_strings() {
    let file = open(false);
    let v = file.variable("label").unwrap();
    assert_eq!(
        file.read_strings(v).unwrap(),
        vec!["surface", "middle", "bottom"]
    );
    assert!(file.read_strings(file.variable("count").unwrap()).is_err());
    assert_eq!(text_rows(b"ab\0dcd", 3), vec!["ab", "dcd"]);
}

#[test]
fn reads_a_hyperslab_of_a_record_variable() {
    let file = open(false);
    let v = file.variable("pressure").unwrap();

    let slab = Hyperslab::new(vec![1, 1], vec![2, 2], &v.shape).unwrap();
    let bytes = file.read_selection(v, &slab).unwrap();
    let got = plain(&decode_numbers(&bytes, v.nc_type));
    // Rows 1 and 2, columns 1 and 2 of the 4x3 grid of i+0.5.
    assert_eq!(got, vec![4.5, 5.5, 7.5, 8.5]);
}

#[test]
fn reads_the_sixty_four_bit_offset_variant() {
    let file = open(true);
    assert_eq!(file.container, Container::Cdf2);
    let v = file.variable("count").unwrap();
    assert_eq!(read_f64(&file, v), vec![10.0, 20.0, 30.0]);
    let p = file.variable("pressure").unwrap();
    let expected: Vec<f64> = (0..12).map(|i| i as f64 + 0.5).collect();
    assert_eq!(read_f64(&file, p), expected);
}

#[test]
fn the_index_is_send_and_sync() {
    fn assert_send_sync<T: Send + Sync>() {}
    assert_send_sync::<ClassicFile<MemorySource>>();
}

#[test]
fn rejects_a_file_that_is_not_classic() {
    let src = MemorySource::new(HDF5_SIGNATURE.to_vec());
    assert!(ClassicFile::from_source(Arc::new(src)).is_err());
}

// ── through the netCDF layer ───────────────────────────────────────────────

fn netcdf(bytes: Vec<u8>) -> Result<NetcdfFile<MemorySource>, Error> {
    NetcdfFile::from_source(Arc::new(MemorySource::new(bytes)), |_| {
        Err(Error::unsupported("HDF5"))
    })
}

#[test]
fn a_classic_file_opens_by_its_magic_bytes() {
    let file = netcdf(fixture(false)).unwrap();
    assert_eq!(file.container(), Container::Cdf1);
    assert!(file.hdf5().is_none());
    assert!(file.classic().is_some());
    assert_eq!(file.dimension_len("level"), Some(3));
    assert!(file.dimension("time").unwrap().is_unlimited);
    assert!(file.dimension("time").unwrap().has_coordinate_variable);
    assert_eq!(
        file.attribute("title").unwrap().value.as_text(),
        Some("classic format fixture")
    );
    assert_eq!(
        file.attribute("version").unwrap().value,
        AttributeValue::Int(3)
    );
    assert!(file.groups().is_empty());
    assert_eq!(file.variables().len(), 5);
}

#[test]
fn a_classic_variable_reads_through_the_shared_interface() {
    let file = netcdf(fixture(true)).unwrap();
    let p = file.variable("pressure").unwrap();
    assert_eq!(p.vartype(), DType::Float(4));
    assert_eq!(p.info().dimensions, vec!["time", "level"]);
    assert_eq!(p.len(), 12);
    assert!(p.is_readable());
    assert_eq!(p.chunking().unwrap(), None);
    assert!(p.dataset().is_none());
    assert_eq!(
        p.fill_value::<F32>().unwrap().map(|x| x.bits),
        Some((-999.0f32).to_bits())
    );
    assert_eq!(p.fill_value::<i16>().unwrap(), Some(-999));
    let one = Extents::Extent(vec![Extent::Index(2), Extent::Index(1)]);
    assert_eq!(p.get_value::<F32>(&one).unwrap().bits, 7.5f32.to_bits());
    assert_eq!(p.get_value::<F64>(&one).unwrap().bits, 7.5f64.to_bits());
    assert_eq!(p.get_value::<u8>(&one).unwrap(), 7);
    let column = Extents::Extent(vec![
        Extent::Slice {
            start: 2,
            stride: 1,
        },
        Extent::Index(0),
    ]);
    assert_eq!(
        plain(&p.get_values::<F64>(&column).unwrap()),
        vec![6.5, 9.5]
    );

    let label = file.variable("label").unwrap();
    assert_eq!(label.vartype(), DType::Char);
    let letters = label
        .get_strings(&Extents::Extent(vec![Extent::Index(1), (0..6).into()]))
        .unwrap();
    assert_eq!(letters.concat(), "middle");
    assert!(matches!(
        label.get_values::<u8>(&Extents::All),
        Err(Error::TypeMismatch { .. })
    ));
    assert!(file.variable("/flag").is_some(), "a leading slash is optional");
}

#[test]
fn a_slice_of_a_record_variable_agrees_with_the_whole() {
    let file = open(false);
    let v = file.variable("flag").unwrap();
    let whole = file.read(v).unwrap();
    for r in 0..4u64 {
        for c in 0..3u64 {
            let slab = Hyperslab::new(vec![r, c], vec![1, 1], &v.shape).unwrap();
            let at = (r * 3 + c) as usize * 2;
            assert_eq!(file.read_selection(v, &slab).unwrap(), whole[at..at + 2]);
        }
    }
}

#[test]
fn a_selection_past_the_end_of_a_classic_variable_is_refused() {
    let file = open(false);
    let v = file.variable("count").unwrap();
    let slab = Hyperslab {
        start: vec![1],
        count: vec![3],
    };
    assert!(matches!(
        file.read_selection(v, &slab),
        Err(Error::BadRequest(_))
    ));
}

#[test]
fn a_wide_classic_header_reads_like_a_narrow_one() {
    let (a, b) = (open(false), open(true));
    assert_eq!(a.dimensions.len(), b.dimensions.len());
    for (x, y) in a.variables.iter().zip(&b.variables) {
        assert_eq!(x.name, y.name);
        assert_eq!(x.shape, y.shape);
        assert_eq!(a.read(x).unwrap(), b.read(y).unwrap());
    }
}

// ── damage ─────────────────────────────────────────────────────────────────

/// Read every variable of a file that opened. Any outcome will do, but a panic.
fn read_all(file: &NetcdfFile<MemorySource>, len: usize) {
    for v in file.variables() {
        let mut total = 1u128;
        for d in &v.info().shape {
            total = total.saturating_mul(*d as u128);
        }
        if total > len as u128 {
            continue;
        }
        let _ = v.get_raw_values(&Extents::All);
        let _ = v.get_values::<F64>(&Extents::All);
        let _ = v.get_strings(&Extents::All);
    }
}

#[test]
fn a_truncated_file_returns_an_error() {
    for wide in [false, true] {
        let bytes = fixture(wide);
        let len = bytes.len();
        let header = header(wide, &[0; 5]).len();
        for cut in 0..len {
            match netcdf(bytes[..cut].to_vec()) {
                Ok(file) => {
                    assert!(cut >= header, "cut {cut}");
                    read_all(&file, cut);
                    assert!(file
                        .variable("flag")
                        .unwrap()
                        .get_raw_values(&Extents::All)
                        .is_err()
                        || cut + 2 >= len);
                }
                Err(_) => assert!(cut < header, "cut {cut}"),
            }
        }
    }
}

#[test]
fn every_single_byte_corruption_of_a_classic_file_is_handled() {
    for wide in [false, true] {
        let bytes = fixture(wide);
        for offset in 0..bytes.len() {
            for value in [0x00u8, 0x01, 0x7F, 0x80, 0xFE, 0xFF] {
                if bytes[offset] == value {
                    continue;
                }
                let mut mutant = bytes.clone();
                mutant[offset] = value;
                if let Ok(file) = netcdf(mutant) {
                    read_all(&file, bytes.len());
                }
            }
        }
    }
}

#[test]
fn random_bytes_are_refused() {
    let mut state = 0x2545_F491_4F6C_DD1Du64;
    for size in [16usize, 512, 4096] {
        for _ in 0..8 {
            let mut bytes = Vec::with_capacity(size);
            for _ in 0..size {
                state ^= state << 13;
                state ^= state >> 7;
                state ^= state << 17;
                bytes.push((state & 0xFF) as u8);
            }
            assert!(netcdf(bytes).is_err());
        }
    }
}

#[test]
fn a_valid_signature_over_rubbish_is_refused() {
    for fill in [0x00u8, 0xFF, 0xAA] {
        let mut bytes = HDF5_SIGNATURE.to_vec();
        bytes.resize(8200, fill);
        assert!(matches!(netcdf(bytes), Err(Error::Unsupported(_))));
    }
    for sig in oxcdf::CDF_SIGNATURES {
        let mut bytes = sig.to_vec();
        bytes.resize(8200, 0xFF);
        assert!(netcdf(bytes).is_err());
    }
}
