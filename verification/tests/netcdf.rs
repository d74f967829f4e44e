//! The netCDF view of an HDF5 tree: dimensions, attributes and groups.

use std::sync::Arc;

use oxcdf::attributes::{decode_all_text, decode_ints, decode_text, decode_typed, decode_value};
use oxcdf::cursor::Sizes;
use oxcdf::element::Scalar;
use oxcdf::index::{DatasetIndex, GroupIndex, Hdf5File};
use oxcdf::message::attribute::Attribute;
use oxcdf::message::dataspace::{Dataspace, DataspaceKind};
use oxcdf::message::datatype::{
    ByteOrder, CharSet, Datatype, DatatypeClass, StringPad, VlenKind,
};
use oxcdf::message::fillvalue::FillValue;
use oxcdf::message::filter::FilterPipeline;
use oxcdf::message::layout::Layout;
use oxcdf::netcdf::{is_reserved, NcGroup, PHANTOM_DIMENSION_PREFIX, RESERVED_ATTRIBUTES};
use oxcdf::superblock::{RootGroup, Superblock};
use oxcdf::{
    AttributeValue, Container, DType, Error, Extents, MemorySource, NcVariable, NetcdfFile, F64,
};

fn integer(size: u32, signed: bool, order: ByteOrder) -> Datatype {
    Datatype {
        version: 1,
        size,
        class: DatatypeClass::FixedPoint {
            order,
            signed,
            bit_offset: 0,
            bit_precision: (size * 8) as u16,
        },
    }
}

fn float(size: u32, order: ByteOrder) -> Datatype {
    Datatype {
        version: 1,
        size,
        class: DatatypeClass::FloatingPoint {
            order,
            bit_offset: 0,
            bit_precision: (size * 8) as u16,
            exponent_location: if size == 4 { 23 } else { 52 },
            exponent_size: if size == 4 { 8 } else { 11 },
            mantissa_location: 0,
            mantissa_size: if size == 4 { 23 } else { 52 },
            exponent_bias: if size == 4 { 127 } else { 1023 },
            sign_location: (size * 8 - 1) as u8,
        },
    }
}

fn text(size: u32, pad: StringPad) -> Datatype {
    Datatype {
        version: 1,
        size,
        class: DatatypeClass::String {
            pad,
            charset: CharSet::Ascii,
        },
    }
}

fn vlen(kind: VlenKind, base: Datatype) -> Datatype {
    Datatype {
        version: 1,
        size: 16,
        class: DatatypeClass::VariableLength {
            kind,
            base: Box::new(base),
            pad: StringPad::NullTerminate,
            charset: CharSet::Ascii,
        },
    }
}

fn attribute(name: &str, datatype: Datatype, count: u64, data: Vec<u8>) -> Attribute {
    Attribute {
        name: name.to_string(),
        datatype,
        dataspace: Dataspace {
            kind: DataspaceKind::Simple,
            dims: vec![count],
            max_dims: None,
        },
        data,
    }
}

fn words(name: &str, s: &str) -> Attribute {
    attribute(
        name,
        text(s.len() as u32, StringPad::NullTerminate),
        1,
        s.as_bytes().to_vec(),
    )
}

fn superblock() -> Superblock {
    Superblock {
        version: 2,
        sizes: Sizes::eight(),
        superblock_offset: 0,
        base_address: 0,
        end_of_file_address: 0,
        extension_address: None,
        root: RootGroup::ObjectHeader(48),
        group_internal_node_k: 0,
        group_leaf_node_k: 0,
        indexed_storage_internal_node_k: 32,
    }
}

/// A dataset of `i32` elements that hold their own numbers, stored compactly.
fn numbered(path: &str, shape: Vec<u64>, address: u64) -> DatasetIndex {
    let total: u64 = shape.iter().product();
    let mut data = Vec::new();
    for i in 0..total as i32 {
        data.extend_from_slice(&i.to_le_bytes());
    }
    DatasetIndex {
        name: path.rsplit('/').next().unwrap().to_string(),
        path: path.to_string(),
        address,
        shape,
        max_shape: None,
        datatype: integer(4, true, ByteOrder::Little),
        layout: Layout::Compact { data },
        pipeline: FilterPipeline::default(),
        fill_value: FillValue::default(),
        attributes: Vec::new(),
        attributes_complete: true,
    }
}

fn group(name: &str, path: &str, datasets: Vec<DatasetIndex>, groups: Vec<GroupIndex>) -> GroupIndex {
    GroupIndex {
        name: name.to_string(),
        path: path.to_string(),
        datasets,
        groups,
        attributes: Vec::new(),
    }
}

fn hdf5(bytes: Vec<u8>, root: GroupIndex) -> Hdf5File<MemorySource> {
    Hdf5File::new(Arc::new(MemorySource::new(bytes)), superblock(), root)
}

fn ints(file: &NetcdfFile<MemorySource>, path: &str, e: &Extents) -> Vec<i64> {
    file.variable(path)
        .unwrap()
        .get_values::<i64>(e)
        .unwrap()
}

// ── attribute values ───────────────────────────────────────────────────────

#[test]
fn a_scalar_variable_has_no_dimensions() {
    let v = NcVariable {
        name: "x".into(),
        path: "/x".into(),
        dimensions: Vec::new(),
        shape: Vec::new(),
        attributes: Vec::new(),
        attributes_complete: true,
        is_coordinate: false,
    };
    assert!(v.dimensions.is_empty());

    let file = NetcdfFile::from_hdf5(hdf5(
        Vec::new(),
        group("", "/", vec![numbered("/x", Vec::new(), 8)], Vec::new()),
    ))
    .unwrap();
    let v = file.variable("/x").unwrap();
    assert!(v.info().dimensions.is_empty());
    assert_eq!(v.len(), 1);
    assert_eq!(ints(&file, "/x", &Extents::All), vec![0]);
}

#[test]
fn attribute_values_expose_text_and_numbers() {
    let plain = |x: F64| f64::from_bits(x.bits);
    let text = AttributeValue::Str("degrees_north".into());
    assert_eq!(text.as_text(), Some("degrees_north"));
    assert_eq!(text.as_f64(), None);
    assert_eq!(text.vartype(), DType::String);

    let nums = AttributeValue::Floats(vec![1.5f32.to_bits(), 2.5f32.to_bits()]);
    assert_eq!(nums.as_f64().map(plain), Some(1.5));
    let all: Vec<f64> = nums.as_f64s().unwrap().into_iter().map(plain).collect();
    assert_eq!(all, vec![1.5, 2.5]);
    assert_eq!(nums.as_text(), None);
    assert_eq!(nums.vartype(), DType::Float(4));
    assert_eq!(nums.len(), 2);

    let ints = AttributeValue::Int(7);
    assert_eq!(ints.as_f64().map(plain), Some(7.0));
    assert_eq!(ints.vartype(), DType::Int(4));
    assert_eq!(ints.len(), 1);

    // An unsigned 64-bit value above `i64::MAX` must survive decoding.
    let big = AttributeValue::Ulonglong(u64::MAX);
    assert_eq!(big.as_f64().map(plain), Some(u64::MAX as f64));
    assert_eq!(big.first_number(), Some(Scalar::Unsigned(u64::MAX)));

    let several = AttributeValue::Strs(vec!["a".into(), "b".into()]);
    assert_eq!(several.as_texts(), Some(vec!["a", "b"]));
    assert!(AttributeValue::Doubles(Vec::new()).is_empty());
    assert_eq!(AttributeValue::Doubles(Vec::new()).first_number(), None);
    assert_eq!(AttributeValue::Doubles(Vec::new()).as_f64(), None);
}

#[test]
fn as_f64_still_reaches_any_number() {
    let values = [
        AttributeValue::Uchar(255),
        AttributeValue::Uchars(vec![1, 2]),
        AttributeValue::Schar(-128),
        AttributeValue::Schars(vec![-1]),
        AttributeValue::Ushort(65535),
        AttributeValue::Ushorts(vec![]),
        AttributeValue::Short(-32768),
        AttributeValue::Shorts(vec![7]),
        AttributeValue::Uint(u32::MAX),
        AttributeValue::Uints(vec![3]),
        AttributeValue::Int(i32::MIN),
        AttributeValue::Ints(vec![]),
        AttributeValue::Ulonglong(u64::MAX),
        AttributeValue::Ulonglongs(vec![9]),
        AttributeValue::Longlong(i64::MIN),
        AttributeValue::Longlongs(vec![-9]),
        AttributeValue::Float(0.1f32.to_bits()),
        AttributeValue::Floats(vec![0.1f32.to_bits()]),
        AttributeValue::Double(0.1f64.to_bits()),
        AttributeValue::Doubles(vec![]),
        AttributeValue::Str("1".into()),
        AttributeValue::Strs(vec!["1".into()]),
        AttributeValue::Raw(vec![1]),
    ];
    for value in &values {
        let numeric = value.vartype().is_integer() || value.vartype().is_float();
        assert_eq!(
            value.as_f64().is_some(),
            numeric && !value.is_empty(),
            "as_f64 on {value:?}"
        );
    }
    let first = |v: &AttributeValue| f64::from_bits(v.as_f64().unwrap().bits);
    assert_eq!(first(&values[0]), 255.0);
    assert_eq!(first(&values[2]), -128.0);
    assert_eq!(first(&values[8]), u32::MAX as f64);
    assert_eq!(first(&values[14]), i64::MIN as f64);
    assert_eq!(first(&values[16]), 0.1f32 as f64);
    assert_eq!(first(&values[18]), 0.1);
}

#[test]
fn reserved_attributes_are_hidden() {
    for name in RESERVED_ATTRIBUTES {
        assert!(
            RESERVED_ATTRIBUTES.contains(&name),
            "{name} should be hidden from netCDF callers"
        );
        assert!(is_reserved(&name.to_string()));
    }
    assert!(RESERVED_ATTRIBUTES.contains(&"DIMENSION_LIST"));
    assert!(!RESERVED_ATTRIBUTES.contains(&"units"));

    let mut d = numbered("/v", vec![2], 8);
    d.attributes.push(words("units", "m"));
    d.attributes.push(words("CLASS", "OTHER"));
    let file =
        NetcdfFile::from_hdf5(hdf5(Vec::new(), group("", "/", vec![d], Vec::new()))).unwrap();
    let v = file.variable("/v").unwrap();
    assert_eq!(v.attributes().len(), 1);
    assert_eq!(v.attribute("units").unwrap().value.as_text(), Some("m"));
    assert!(v.attribute("CLASS").is_none());
}

#[test]
fn a_float_attribute_keeps_its_width() {
    let four = decode_value(&float(4, ByteOrder::Little), &1.5f32.to_le_bytes(), None);
    assert_eq!(four, AttributeValue::Float(1.5f32.to_bits()));
    assert_eq!(four.vartype(), DType::Float(4));
    let mut both = 1.5f64.to_be_bytes().to_vec();
    both.extend_from_slice(&(-2.0f64).to_be_bytes());
    let eight = decode_value(&float(8, ByteOrder::Big), &both, None);
    assert_eq!(
        eight,
        AttributeValue::Doubles(vec![1.5f64.to_bits(), (-2.0f64).to_bits()])
    );
    assert_eq!(eight.vartype(), DType::Float(8));
}

#[test]
fn an_integer_attribute_keeps_its_width_and_sign() {
    for (size, signed, want) in [
        (1u32, true, DType::Int(1)),
        (2, true, DType::Int(2)),
        (4, true, DType::Int(4)),
        (8, true, DType::Int(8)),
        (1, false, DType::Uint(1)),
        (2, false, DType::Uint(2)),
        (4, false, DType::Uint(4)),
        (8, false, DType::Uint(8)),
    ] {
        for order in [ByteOrder::Little, ByteOrder::Big] {
            let data = vec![0xFF; size as usize];
            let v = decode_value(&integer(size, signed, order), &data, None);
            assert_eq!(v.vartype(), want);
            let max = if size == 8 {
                u64::MAX
            } else {
                (1u64 << (size * 8)) - 1
            };
            assert_eq!(
                v.first_number(),
                Some(if signed {
                    Scalar::Signed(-1)
                } else {
                    Scalar::Unsigned(max)
                })
            );
        }
    }
}

#[test]
fn one_value_is_singular_and_several_are_plural() {
    let t = integer(2, true, ByteOrder::Big);
    assert_eq!(
        decode_value(&t, &[0xFF, 0xFE], None),
        AttributeValue::Short(-2)
    );
    assert_eq!(
        decode_value(&t, &[0, 1, 0, 2], None),
        AttributeValue::Shorts(vec![1, 2])
    );
    assert_eq!(decode_value(&t, &[], None), AttributeValue::Shorts(vec![]));
}

#[test]
fn a_type_that_cannot_be_decoded_stays_raw() {
    let t = Datatype {
        version: 1,
        size: 2,
        class: DatatypeClass::Opaque {
            tag: "blob".to_string(),
        },
    };
    assert_eq!(decode_typed(&t, &[1, 2], None), None);
    assert_eq!(
        decode_value(&t, &[1, 2], None),
        AttributeValue::Raw(vec![1, 2])
    );
    // A three-byte integer decodes, but no variant has that width.
    let odd = integer(3, true, ByteOrder::Little);
    assert_eq!(decode_ints(&odd, &[0xFF, 0xFF, 0xFF]).unwrap(), vec![-1]);
    assert_eq!(
        decode_value(&odd, &[1, 2, 3], None),
        AttributeValue::Raw(vec![1, 2, 3])
    );
    assert!(matches!(
        decode_ints(&integer(9, true, ByteOrder::Little), &[0; 9]),
        Err(Error::Unsupported(_))
    ));
    assert!(matches!(
        decode_ints(&t, &[1, 2]),
        Err(Error::Unsupported(_))
    ));
}

#[test]
fn fixed_text_stops_at_its_padding() {
    let nul = text(4, StringPad::NullTerminate);
    assert_eq!(decode_text(&nul, b"ab\0d").unwrap(), "ab");
    let space = text(4, StringPad::SpacePad);
    assert_eq!(decode_text(&space, b"ab  ").unwrap(), "ab");
    assert_eq!(
        decode_all_text(&nul, b"ab\0\0cdef").unwrap(),
        vec!["ab", "cdef"]
    );
    // Bytes that are no UTF-8 become the replacement character.
    assert_eq!(decode_text(&nul, &[b'a', 0xFF, 0, 0]).unwrap(), "a\u{FFFD}");
    // Characters are one string, however many elements there are.
    assert_eq!(
        decode_value(&text(1, StringPad::NullTerminate), b"dbar", None),
        AttributeValue::Str("dbar".to_string())
    );
    assert_eq!(decode_all_text(&integer(4, true, ByteOrder::Little), b"abcd"), None);
}

// ── dimension scales ───────────────────────────────────────────────────────

/// A file with a global heap at 64 whose objects are references to `targets`,
/// numbered from one.
fn heap_of(targets: &[u64]) -> Vec<u8> {
    let mut heap = b"GCOL".to_vec();
    heap.extend_from_slice(&[1, 0, 0, 0]);
    heap.extend_from_slice(&4096u64.to_le_bytes());
    for (i, t) in targets.iter().enumerate() {
        heap.extend_from_slice(&(i as u16 + 1).to_le_bytes());
        heap.extend_from_slice(&1u16.to_le_bytes());
        heap.extend_from_slice(&[0; 4]);
        heap.extend_from_slice(&8u64.to_le_bytes());
        heap.extend_from_slice(&t.to_le_bytes());
    }
    heap.resize(4096, 0);
    let mut bytes = vec![0u8; 64];
    bytes.extend_from_slice(&heap);
    bytes
}

/// One descriptor for each heap object number.
fn dimension_list(objects: &[u32]) -> Attribute {
    let mut data = Vec::new();
    for o in objects {
        data.extend_from_slice(&1u32.to_le_bytes());
        data.extend_from_slice(&64u64.to_le_bytes());
        data.extend_from_slice(&o.to_le_bytes());
    }
    let reference = Datatype {
        version: 1,
        size: 8,
        class: DatatypeClass::Reference { kind: 0 },
    };
    attribute(
        "DIMENSION_LIST",
        vlen(VlenKind::Sequence, reference),
        objects.len() as u64,
        data,
    )
}

fn scale(path: &str, len: u64, address: u64, id: Option<i32>, name: &str) -> DatasetIndex {
    let mut d = numbered(path, vec![len], address);
    d.attributes.push(words("CLASS", "DIMENSION_SCALE"));
    d.attributes.push(words("NAME", name));
    if let Some(id) = id {
        d.attributes.push(attribute(
            "_Netcdf4Dimid",
            integer(4, true, ByteOrder::Little),
            1,
            id.to_le_bytes().to_vec(),
        ));
    }
    d
}

#[test]
fn a_dimension_list_names_the_axes() {
    let mut v = numbered("/temp", vec![4, 3], 1000);
    v.attributes.push(dimension_list(&[2, 1]));
    let mut phantom = scale("/obs", 4, 300, Some(0), "");
    phantom.attributes[1] = words(
        "NAME",
        &format!("{PHANTOM_DIMENSION_PREFIX}         4"),
    );
    phantom.max_shape = Some(vec![u64::MAX]);
    let lat = scale("/lat", 3, 200, Some(1), "lat");
    let file = NetcdfFile::from_hdf5(hdf5(
        heap_of(&[200, 300]),
        group("", "/", vec![lat, phantom, v], Vec::new()),
    ))
    .unwrap();

    assert_eq!(file.container(), Container::Hdf5);
    let temp = file.variable("temp").unwrap();
    assert_eq!(temp.info().dimensions, vec!["obs", "lat"]);
    assert!(temp.attributes().is_empty());

    // Dimensions come in the order of their ids.
    let names: Vec<&str> = file.dimensions().iter().map(|d| d.name.as_str()).collect();
    assert_eq!(names, vec!["obs", "lat"]);
    assert!(file.dimension("obs").unwrap().is_unlimited);
    assert!(!file.dimension("obs").unwrap().has_coordinate_variable);
    assert!(file.dimension("lat").unwrap().has_coordinate_variable);
    assert_eq!(file.dimension_len("lat"), Some(3));
    assert_eq!(file.dimension_len("nope"), None);

    // A coordinate variable is its own dimension, and a dimension without one
    // is no variable.
    assert_eq!(file.variable("/lat").unwrap().info().dimensions, vec!["lat"]);
    assert!(file.variable("/lat").unwrap().info().is_coordinate);
    assert!(file.variable("/obs").is_none());
}

#[test]
fn dimension_ids_stand_in_for_a_missing_list() {
    let mut v = numbered("/grid", vec![2, 3], 1000);
    let mut ids = 1i32.to_le_bytes().to_vec();
    ids.extend_from_slice(&0i32.to_le_bytes());
    v.attributes.push(attribute(
        "_Netcdf4Coordinates",
        integer(4, true, ByteOrder::Little),
        2,
        ids,
    ));
    let file = NetcdfFile::from_hdf5(hdf5(
        Vec::new(),
        group(
            "",
            "/",
            vec![
                scale("/x", 3, 200, Some(0), "x"),
                scale("/y", 2, 300, Some(1), "y"),
                v,
            ],
            Vec::new(),
        ),
    ))
    .unwrap();
    assert_eq!(
        file.variable("/grid").unwrap().info().dimensions,
        vec!["y", "x"]
    );
}

#[test]
fn an_axis_without_a_name_gets_a_placeholder() {
    let mut v = numbered("/loose", vec![2, 3], 1000);
    // The list points at an address that is no scale.
    v.attributes.push(dimension_list(&[1, 1]));
    let file = NetcdfFile::from_hdf5(hdf5(
        heap_of(&[999]),
        group("", "/", vec![v], Vec::new()),
    ))
    .unwrap();
    assert_eq!(
        file.variable("/loose").unwrap().info().dimensions,
        vec!["phony_dim_0", "phony_dim_1"]
    );
}

#[test]
fn a_damaged_heap_is_an_error() {
    let mut v = numbered("/v", vec![2], 1000);
    v.attributes.push(dimension_list(&[1]));
    let mut bytes = heap_of(&[200]);
    bytes[64] = b'X';
    let err = NetcdfFile::from_hdf5(hdf5(bytes, group("", "/", vec![v], Vec::new())))
        .err()
        .unwrap();
    assert!(matches!(err, Error::Malformed(_)), "got {err:?}");
}

// ── invented dimensions ─────────────────────────────────────────────────────────────

/// Groups nested several levels, with one dimension scale in the whole file.
fn nested() -> NetcdfFile<MemorySource> {
    let empty = |path: &str, address: u64| {
        let mut d = numbered(path, vec![0], address);
        d.max_shape = Some(vec![u64::MAX]);
        d
    };
    let mut growable = numbered("/edges/growable", vec![3], 140);
    growable.max_shape = Some(vec![u64::MAX]);
    let edges = group(
        "edges",
        "/edges",
        vec![
            empty("/edges/empty_a", 110),
            empty("/edges/empty_b", 120),
            numbered("/edges/fixed_three", vec![3], 130),
            growable,
        ],
        Vec::new(),
    );
    let inner = group(
        "inner",
        "/outer/inner",
        vec![numbered("/outer/inner/six", vec![6], 210)],
        Vec::new(),
    );
    let outer = group(
        "outer",
        "/outer",
        vec![
            numbered("/outer/flat", vec![4], 220),
            numbered("/outer/pair", vec![6, 4], 230),
            numbered("/outer/square", vec![4, 4], 240),
        ],
        vec![inner],
    );
    let scaled = group(
        "scaled",
        "/scaled",
        vec![
            scale("/scaled/row", 4, 310, None, "row"),
            numbered("/scaled/uses_scale", vec![4], 320),
        ],
        Vec::new(),
    );
    let root = group(
        "",
        "/",
        vec![numbered("/top", vec![6], 410)],
        vec![edges, outer, scaled],
    );
    NetcdfFile::from_hdf5(hdf5(Vec::new(), root)).unwrap()
}

/// A group's dimensions as `(name, length, unlimited)`, in the reported order.
fn dims(group: &NcGroup) -> Vec<(&str, u64, bool)> {
    group
        .dimensions
        .iter()
        .map(|d| (d.name.as_str(), d.len, d.is_unlimited))
        .collect()
}

fn walk<'a>(g: &'a NcGroup, out: &mut Vec<&'a str>) {
    out.push(&g.path);
    for c in &g.groups {
        walk(c, out);
    }
}

fn axes(file: &NetcdfFile<MemorySource>, path: &str) -> Vec<String> {
    file.variable(path).unwrap().info().dimensions.clone()
}

#[test]
fn every_group_is_reachable_by_path() {
    let file = nested();
    let mut paths: Vec<&str> = Vec::new();
    walk(file.root(), &mut paths);
    paths.sort_unstable();

    assert_eq!(
        paths,
        vec!["/", "/edges", "/outer", "/outer/inner", "/scaled"]
    );

    // The same groups answer to an absolute path.
    assert_eq!(file.group("/outer/inner").unwrap().name, "inner");
    assert_eq!(file.group("/").unwrap().path, "/");
    assert!(file.group("/outer/missing").is_none());
}

#[test]
fn phony_numbers_run_over_the_whole_file_children_first() {
    let file = nested();

    // `/scaled/row` is a named dimension, so it takes id 0 and the invented
    // ones start at 1.
    assert_eq!(
        dims(file.group("/scaled").unwrap()),
        vec![("row", 4, false)]
    );

    // `/outer/inner` is numbered before `/outer`, and the root last of all.
    assert_eq!(
        dims(file.group("/outer/inner").unwrap()),
        vec![("phony_dim_5", 6, false)]
    );
    assert_eq!(
        dims(file.group("/outer").unwrap()),
        vec![
            ("phony_dim_6", 4, false),
            ("phony_dim_7", 6, false),
            ("phony_dim_8", 4, false),
        ]
    );
    assert_eq!(dims(file.root()), vec![("phony_dim_9", 6, false)]);

    // Every invented dimension says so, and carries its number as its id.
    for d in &file.group("/outer").unwrap().dimensions {
        assert!(d.is_phony, "{} should be marked invented", d.name);
    }
    assert_eq!(file.dimensions()[0].id, Some(9));
    assert!(!file.group("/scaled").unwrap().dimensions[0].is_phony);
}

#[test]
fn one_dimension_serves_every_axis_of_its_length_in_its_group() {
    let file = nested();

    // `flat` is 4 long and `square` is 4 by 4. The two axes of `square` cannot
    // share a dimension, so the second needs one of its own.
    assert_eq!(axes(&file, "/outer/flat"), vec!["phony_dim_6"]);
    assert_eq!(
        axes(&file, "/outer/square"),
        vec!["phony_dim_6", "phony_dim_8"]
    );

    // `pair` is 6 by 4. Its second axis reuses the 4 that `flat` established.
    assert_eq!(
        axes(&file, "/outer/pair"),
        vec!["phony_dim_7", "phony_dim_6"]
    );

    // A child group does not reach its parent's dimensions, so this 6 is not
    // the 6 in `/outer`.
    assert_eq!(axes(&file, "/outer/inner/six"), vec!["phony_dim_5"]);

    // Nor does the root reach into a child.
    assert_eq!(axes(&file, "/top"), vec!["phony_dim_9"]);
}

#[test]
fn an_empty_axis_gets_a_dimension_of_its_own() {
    let file = nested();
    let edges = file.group("/edges").unwrap();

    assert_eq!(
        dims(edges),
        vec![
            ("phony_dim_1", 0, true),
            ("phony_dim_2", 0, true),
            ("phony_dim_3", 3, false),
            ("phony_dim_4", 3, true),
        ]
    );

    assert_eq!(axes(&file, "/edges/empty_a"), vec!["phony_dim_1"]);
    assert_eq!(axes(&file, "/edges/empty_b"), vec!["phony_dim_2"]);
}

#[test]
fn a_growable_axis_does_not_share_with_a_fixed_one() {
    let file = nested();

    // Both are 3 long. Only one can grow, so they take separate dimensions.
    assert_eq!(axes(&file, "/edges/growable"), vec!["phony_dim_4"]);
    assert_eq!(axes(&file, "/edges/fixed_three"), vec!["phony_dim_3"]);

    let edges = file.group("/edges").unwrap();
    assert!(edges.dimension("phony_dim_4").unwrap().is_unlimited);
    assert!(!edges.dimension("phony_dim_3").unwrap().is_unlimited);
}

#[test]
fn an_unattached_axis_lands_on_a_named_dimension() {
    let file = nested();

    assert_eq!(axes(&file, "/scaled/uses_scale"), vec!["row"]);

    // The scale is a coordinate variable, so it is a dimension and a variable.
    assert_eq!(axes(&file, "/scaled/row"), vec!["row"]);
    let scaled = file.group("/scaled").unwrap();
    assert_eq!(scaled.dimensions.len(), 1, "no dimension was invented here");
    assert!(scaled.dimension("row").unwrap().has_coordinate_variable);
}

#[test]
fn values_read_from_any_depth() {
    let file = nested();

    let mut paths: Vec<String> = file
        .variables()
        .iter()
        .map(|v| v.info().path.clone())
        .collect();
    paths.sort();
    assert_eq!(
        paths,
        vec![
            "/edges/empty_a",
            "/edges/empty_b",
            "/edges/fixed_three",
            "/edges/growable",
            "/outer/flat",
            "/outer/inner/six",
            "/outer/pair",
            "/outer/square",
            "/scaled/row",
            "/scaled/uses_scale",
            "/top",
        ]
    );

    // Every dataset is filled with its own element index.
    assert_eq!(
        ints(&file, "/outer/inner/six", &Extents::All),
        vec![0, 1, 2, 3, 4, 5]
    );

    assert_eq!(
        file.variable("/outer/pair").unwrap().info().shape,
        vec![6, 4]
    );
    let corner = Extents::Extent(vec![(1..3).into(), (0..2).into()]);
    assert_eq!(ints(&file, "/outer/pair", &corner), vec![4, 5, 8, 9]);

    // An empty variable reads as nothing rather than failing.
    assert!(ints(&file, "/edges/empty_a", &Extents::All).is_empty());
    assert!(file.variable("/edges/empty_a").unwrap().is_empty());
}

// ── user-defined types ─────────────────────────────────────────────────────

fn user_types() -> NetcdfFile<MemorySource> {
    let mut records = Vec::new();
    for (station, value, label) in [(11i32, 1.5f32, "alpha"), (22, -2.25, "beta"), (33, 0.0, "gamma")] {
        records.extend_from_slice(&station.to_le_bytes());
        records.extend_from_slice(&value.to_le_bytes());
        let mut b = label.as_bytes().to_vec();
        b.resize(8, 0);
        records.extend_from_slice(&b);
    }
    let mut readings = numbered("/readings", vec![3], 100);
    readings.datatype = Datatype {
        version: 1,
        size: 16,
        class: DatatypeClass::Compound {
            members: Vec::new(),
        },
    };
    readings.layout = Layout::Compact { data: records };
    readings
        .attributes
        .push(words("long_name", "compound readings"));
    let mut profiles = numbered("/profiles", vec![3], 200);
    profiles.datatype = vlen(VlenKind::Sequence, float(4, ByteOrder::Little));
    let mut plain = numbered("/plain", vec![3], 300);
    let mut data = Vec::new();
    for v in [7i32, 8, 9] {
        data.extend_from_slice(&v.to_le_bytes());
    }
    plain.layout = Layout::Compact { data };
    plain.attributes.push(words("units", "count"));
    let mut quality = numbered("/quality", vec![3], 400);
    quality.datatype = Datatype {
        version: 3,
        size: 1,
        class: DatatypeClass::Enum {
            base: Box::new(integer(1, false, ByteOrder::Little)),
            names: vec!["good".to_string(), "bad".to_string()],
            values: vec![vec![0], vec![1]],
        },
    };
    quality.layout = Layout::Compact { data: vec![0, 1, 0] };
    let mut tags = numbered("/tags", vec![3], 500);
    tags.datatype = Datatype {
        version: 1,
        size: 2,
        class: DatatypeClass::Opaque {
            tag: "tag_t".to_string(),
        },
    };
    tags.layout = Layout::Compact { data: vec![1, 2, 3, 4, 5, 6] };
    let phantom = format!("{PHANTOM_DIMENSION_PREFIX}         3");
    let n = scale("/n", 3, 600, Some(0), &phantom);
    NetcdfFile::from_hdf5(hdf5(
        Vec::new(),
        group(
            "",
            "/",
            vec![n, plain, profiles, quality, readings, tags],
            Vec::new(),
        ),
    ))
    .unwrap()
}

#[test]
fn every_variable_of_a_user_defined_type_is_indexed() {
    let file = user_types();

    let mut names: Vec<_> = file.variables().iter().map(|v| v.info().name.clone()).collect();
    names.sort();

    // The dimension `n` has no coordinate variable, so it is not among them.
    assert_eq!(names, ["plain", "profiles", "quality", "readings", "tags"]);
}

#[test]
fn reports_the_type_of_each_user_defined_variable() {
    let file = user_types();
    assert_eq!(file.variable("/readings").unwrap().vartype(), DType::Other);
    assert_eq!(file.variable("/quality").unwrap().vartype(), DType::Other);
    assert_eq!(file.variable("/tags").unwrap().vartype(), DType::Other);
    assert_eq!(
        file.variable("/profiles").unwrap().vartype(),
        DType::Vlen(Box::new(DType::Float(4)))
    );
    assert_eq!(file.variable("/plain").unwrap().vartype(), DType::Int(4));
    assert!(file.groups().is_empty());
}

#[test]
fn a_plain_variable_still_reads_its_values() {
    let file = user_types();
    let plain = file.variable("/plain").unwrap();

    assert_eq!(plain.info().shape, vec![3]);
    assert_eq!(ints(&file, "/plain", &Extents::All), vec![7, 8, 9]);
    assert_eq!(
        plain.attribute("units").unwrap().value.as_text(),
        Some("count")
    );
}

#[test]
fn a_compound_variable_carries_its_attributes() {
    let file = user_types();
    let readings = file.variable("/readings").unwrap();

    assert_eq!(readings.info().shape, vec![3]);
    assert_eq!(
        readings.attribute("long_name").unwrap().value.as_text(),
        Some("compound readings")
    );
}

#[test]
fn a_compound_variable_reads_its_raw_bytes() {
    let file = user_types();
    let readings = file.variable("/readings").unwrap();

    let raw = readings.get_raw_values(&Extents::All).unwrap();
    assert_eq!(raw.len(), 3 * 16, "three records of sixteen bytes");

    let record = |i: usize| -> (i32, f32, String) {
        let r = &raw[i * 16..(i + 1) * 16];
        let label_end = r[8..].iter().position(|&b| b == 0).unwrap_or(8);
        (
            i32::from_le_bytes(r[0..4].try_into().unwrap()),
            f32::from_le_bytes(r[4..8].try_into().unwrap()),
            String::from_utf8_lossy(&r[8..8 + label_end]).into_owned(),
        )
    };

    assert_eq!(record(0), (11, 1.5, "alpha".to_string()));
    assert_eq!(record(1), (22, -2.25, "beta".to_string()));
    assert_eq!(record(2), (33, 0.0, "gamma".to_string()));
}

#[test]
fn another_hdf5_file_can_stand_behind_the_same_view() {
    let file = NetcdfFile::from_hdf5(hdf5(
        vec![1, 0, 0, 0],
        group("", "/", vec![numbered("/v", vec![1], 0)], Vec::new()),
    ))
    .unwrap();
    let before = file.variables().len();
    let empty = group("", "/", Vec::new(), Vec::new());
    let file = file.map_hdf5(|h| Hdf5File::new(h.source.clone(), superblock(), empty));
    assert_eq!(file.root().variables.len(), before);
    assert!(file.hdf5().unwrap().datasets().is_empty());
}

#[test]
fn a_fill_value_attribute_matches_its_variable_type() {
    let mut datasets = Vec::new();
    let types = [
        integer(1, true, ByteOrder::Little),
        integer(2, true, ByteOrder::Big),
        integer(4, true, ByteOrder::Little),
        integer(8, true, ByteOrder::Little),
        integer(1, false, ByteOrder::Little),
        integer(2, false, ByteOrder::Little),
        integer(4, false, ByteOrder::Big),
        integer(8, false, ByteOrder::Little),
        float(4, ByteOrder::Little),
        float(8, ByteOrder::Big),
        text(1, StringPad::NullTerminate),
    ];
    for (i, datatype) in types.into_iter().enumerate() {
        let size = datatype.size as usize;
        let mut d = numbered(&format!("/v{i}"), vec![2], 100 + i as u64);
        d.layout = Layout::Compact {
            data: vec![b'a'; 2 * size],
        };
        d.attributes
            .push(attribute("_FillValue", datatype_like(&datatype), 1, vec![b'x'; size]));
        d.datatype = datatype;
        datasets.push(d);
    }
    datasets.push(numbered("/without", vec![2], 50));
    let file = NetcdfFile::from_hdf5(hdf5(Vec::new(), group("", "/", datasets, Vec::new()))).unwrap();

    let mut compared = 0;
    for v in file.variables() {
        let Some(fill) = v.attribute("_FillValue") else {
            continue;
        };
        // A fill value is written in the variable's own type. A reader that
        // widened it would produce a value that never compares equal. A `char`
        // variable is the one exception: its fill value arrives as text.
        let want = match v.vartype() {
            DType::Char => DType::String,
            other => other,
        };
        assert_eq!(fill.value.vartype(), want, "_FillValue of {}", v.info().path);
        compared += 1;
    }
    assert_eq!(compared, 11);
}

/// The same number or text type again.
fn datatype_like(d: &Datatype) -> Datatype {
    match &d.class {
        DatatypeClass::FixedPoint { signed, order, .. } => integer(d.size, *signed, *order),
        DatatypeClass::FloatingPoint { order, .. } => float(d.size, *order),
        _ => text(d.size, StringPad::NullTerminate),
    }
}
