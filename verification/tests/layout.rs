use safe_pod::ConfigError;
use safe_pod::Pod;
use safe_pod::PodError;
use safe_pod::Prim;
use safe_pod::Repr;
use safe_pod::TypeDesc;
use safe_pod::UnionLayout;
use safe_pod::Value;

#[test]
fn repr_support() {
    assert!(Repr::U8.is_zeroable());
    assert!(Repr::Usize.is_zeroable());
    assert!(Repr::Isize.is_zeroable());
    assert!(!Repr::NotSupported.is_zeroable());

    assert!(Repr::U8.is_pod());
    assert!(Repr::I128.is_pod());
    assert!(!Repr::Usize.is_pod());
    assert!(!Repr::Isize.is_pod());
    assert!(!Repr::NotSupported.is_pod());
}

#[test]
fn repr_from_path() {
    assert_eq!(Repr::from_path("u8"), Repr::U8);
    assert_eq!(Repr::from_path("u16"), Repr::U16);
    assert_eq!(Repr::from_path("u32"), Repr::U32);
    assert_eq!(Repr::from_path("u64"), Repr::U64);
    assert_eq!(Repr::from_path("u128"), Repr::U128);
    assert_eq!(Repr::from_path("usize"), Repr::Usize);
    assert_eq!(Repr::from_path("i8"), Repr::I8);
    assert_eq!(Repr::from_path("i16"), Repr::I16);
    assert_eq!(Repr::from_path("i32"), Repr::I32);
    assert_eq!(Repr::from_path("i64"), Repr::I64);
    assert_eq!(Repr::from_path("i128"), Repr::I128);
    assert_eq!(Repr::from_path("isize"), Repr::Isize);
    assert_eq!(Repr::from_path("f32"), Repr::NotSupported);
    assert_eq!(Repr::from_path("String"), Repr::NotSupported);
}

#[test]
fn pod_error_messages() {
    assert_eq!(PodError::OutOfSpace.message(), "NotEnughSpace");
    assert_eq!(PodError::OutOfRange.message(), "NotInRange");
}

#[test]
fn union_config_errors() {
    assert_eq!(
        UnionLayout::new(Repr::Usize, vec![0], None).err(),
        Some(ConfigError::UnsupportedRepr)
    );
    assert_eq!(
        UnionLayout::new(Repr::NotSupported, vec![0], None).err(),
        Some(ConfigError::UnsupportedRepr)
    );
    assert_eq!(
        UnionLayout::new(Repr::U8, vec![], None).err(),
        Some(ConfigError::EmptyUnion)
    );
    assert_eq!(
        UnionLayout::new(Repr::U8, vec![300], None).err(),
        Some(ConfigError::TagOutOfRange)
    );
    assert_eq!(
        UnionLayout::new(Repr::U8, vec![1, -1], None).err(),
        Some(ConfigError::TagOutOfRange)
    );
    assert_eq!(
        UnionLayout::new(Repr::I8, vec![-128, 127], None).err(),
        None
    );
    assert_eq!(
        UnionLayout::new(Repr::U8, vec![1, 2, 1], None).err(),
        Some(ConfigError::DuplicateTag)
    );
    assert_eq!(
        UnionLayout::new(Repr::U8, vec![1, 2], Some(5)).err(),
        Some(ConfigError::InvalidZeroVariant)
    );
}

#[test]
fn union_tag_lookup() {
    let u = UnionLayout::new(Repr::U8, vec![5, 0, 7], None).unwrap();
    assert_eq!(u.size(), 1);
    assert_eq!(u.variant_count(), 3);

    // Decoding a representation value equal to a variant's tag returns
    // that variant; a value matching no tag is out of range.
    assert_eq!(u.decode_le(&[5u8]), Ok(0));
    assert_eq!(u.decode_le(&[0u8]), Ok(1));
    assert_eq!(u.decode_le(&[7u8]), Ok(2));
    assert_eq!(u.decode_le(&[9u8]), Err(PodError::OutOfRange));
    assert_eq!(u.decode_be(&[5u8]), Ok(0));
    assert_eq!(u.decode_be(&[9u8]), Err(PodError::OutOfRange));

    // Space errors come before range errors.
    assert_eq!(u.decode_le(&[]), Err(PodError::OutOfSpace));
    assert_eq!(u.decode_be(&[]), Err(PodError::OutOfSpace));

    // Encoding writes the variant's tag.
    let mut buffer = [0u8; 1];
    assert_eq!(u.encode_le(2, &mut buffer), Ok(1));
    assert_eq!(buffer, [7u8]);
    assert_eq!(u.encode_be(0, &mut buffer), Ok(1));
    assert_eq!(buffer, [5u8]);
    let mut empty: [u8; 0] = [];
    assert_eq!(u.encode_le(0, &mut empty), Err(PodError::OutOfSpace));
}

#[test]
fn union_wide_tags() {
    let u = UnionLayout::new(Repr::I16, vec![-1, 256], None).unwrap();
    assert_eq!(u.size(), 2);
    assert_eq!(u.decode_le(&[255u8, 255u8]), Ok(0));
    assert_eq!(u.decode_be(&[255u8, 255u8]), Ok(0));
    assert_eq!(u.decode_le(&[0u8, 1u8]), Ok(1));
    assert_eq!(u.decode_be(&[1u8, 0u8]), Ok(1));
    assert_eq!(u.decode_le(&[1u8, 0u8]), Err(PodError::OutOfRange));

    let mut buffer = [0u8; 2];
    assert_eq!(u.encode_le(0, &mut buffer), Ok(2));
    assert_eq!(buffer, [255u8, 255u8]);
    assert_eq!(u.encode_be(1, &mut buffer), Ok(2));
    assert_eq!(buffer, [1u8, 0u8]);

    // A 128-bit representation value beyond any spellable tag is out of
    // range rather than a match.
    let w = UnionLayout::new(Repr::U128, vec![1], None).unwrap();
    let all_ones = [255u8; 16];
    assert_eq!(w.decode_le(&all_ones), Err(PodError::OutOfRange));
    let mut one_le = [0u8; 16];
    one_le[0] = 1;
    assert_eq!(w.decode_le(&one_le), Ok(0));
}

#[test]
fn zero_variant_resolution() {
    // Three variants with tags {5, 0, 7} in declaration order and no
    // explicit zero designation: the zero value is the variant whose tag
    // equals the representation's zero, not the first-declared variant.
    let u = UnionLayout::new(Repr::U8, vec![5, 0, 7], None).unwrap();
    assert_eq!(u.zero_variant_index(), 1);

    // An explicit designation overrides the scan.
    let v = UnionLayout::new(Repr::U8, vec![5, 0, 7], Some(2)).unwrap();
    assert_eq!(v.zero_variant_index(), 2);

    // With no zero tag at all, the first declared variant is the zero.
    let w = UnionLayout::new(Repr::U8, vec![5, 3, 7], None).unwrap();
    assert_eq!(w.zero_variant_index(), 0);
}

#[test]
fn product_scenario() {
    // A two-field product of an 8-bit signed field and a 32-bit float
    // field: SIZE is 5, and encoding (1, 1.5) little-endian gives
    // [1, 0, 0, 192, 63].
    let t = TypeDesc::Product(vec![TypeDesc::Prim(Prim::I8), TypeDesc::Prim(Prim::F32)]);
    assert_eq!(t.size(), 5);

    let v = Value::List(vec![Value::I8(1), Value::F32Bits(1.5f32.to_bits())]);
    let mut buffer = [0u8; 5];
    assert_eq!(t.encode_le(&v, &mut buffer), Ok(5));
    assert_eq!(buffer, [1u8, 0u8, 0u8, 192u8, 63u8]);

    // Re-encoding big-endian and decoding through the big-endian path
    // reproduces (1, 1.5) exactly.
    let mut be_buffer = [0u8; 5];
    assert_eq!(t.encode_be(&v, &mut be_buffer), Ok(5));
    assert_eq!(be_buffer, [1u8, 63u8, 192u8, 0u8, 0u8]);
    let back = t.decode_be(&be_buffer).unwrap();
    match &back {
        Value::List(fields) => {
            assert_eq!(fields[0], Value::I8(1));
            match fields[1] {
                Value::F32Bits(bits) => assert_eq!(f32::from_bits(bits), 1.5f32),
                _ => panic!("expected a float field"),
            }
        },
        _ => panic!("expected a product value"),
    }
    assert_eq!(back, v);

    // The little-endian path round-trips too.
    assert_eq!(t.decode_le(&buffer).unwrap(), v);
}

#[test]
fn product_space_checks() {
    let t = TypeDesc::Product(vec![TypeDesc::Prim(Prim::U16), TypeDesc::Prim(Prim::U8)]);
    assert_eq!(t.size(), 3);

    // One byte short always fails with OutOfSpace, for decode and encode.
    let short = [0u8; 2];
    assert_eq!(t.decode_le(&short), Err(PodError::OutOfSpace));
    assert_eq!(t.decode_be(&short), Err(PodError::OutOfSpace));
    let v = t.zeroed();
    let mut short_out = [0u8; 2];
    assert_eq!(t.encode_le(&v, &mut short_out), Err(PodError::OutOfSpace));
    assert_eq!(t.encode_be(&v, &mut short_out), Err(PodError::OutOfSpace));
    assert_eq!(short_out, [0u8; 2]);

    // An exactly sized buffer succeeds, and trailing bytes are ignored.
    let exact = [1u8, 2u8, 3u8];
    assert_eq!(
        t.decode_le(&exact),
        Ok(Value::List(vec![Value::U16(0x0201), Value::U8(3)]))
    );
    let longer = [1u8, 2u8, 3u8, 99u8];
    assert_eq!(
        t.decode_le(&longer),
        Ok(Value::List(vec![Value::U16(0x0201), Value::U8(3)]))
    );
    assert_eq!(
        t.decode_be(&exact),
        Ok(Value::List(vec![Value::U16(0x0102), Value::U8(3)]))
    );
}

#[test]
fn product_field_range_failure() {
    // A boolean byte outside {0, 1} aborts the whole decode with
    // OutOfRange, with no partial object.
    let t = TypeDesc::Product(vec![TypeDesc::Prim(Prim::U8), TypeDesc::Prim(Prim::Bool)]);
    assert_eq!(t.decode_le(&[7u8, 2u8]), Err(PodError::OutOfRange));
    assert_eq!(t.decode_be(&[7u8, 2u8]), Err(PodError::OutOfRange));
    assert_eq!(
        t.decode_le(&[7u8, 1u8]),
        Ok(Value::List(vec![Value::U8(7), Value::Bool(true)]))
    );
}

#[test]
fn empty_product() {
    // The field-less shapes decode and encode as size-0 no-ops.
    let t = TypeDesc::Product(vec![]);
    assert_eq!(t.size(), 0);
    assert_eq!(t.decode_le(&[]), Ok(Value::List(vec![])));
    assert_eq!(t.decode_be(&[9u8]), Ok(Value::List(vec![])));
    let mut buffer: [u8; 0] = [];
    assert_eq!(t.encode_le(&Value::List(vec![]), &mut buffer), Ok(0));
    assert_eq!(t.zeroed(), Value::List(vec![]));
}

#[test]
fn nested_composite_round_trip() {
    // A product holding a primitive, a tagged union and a nested product,
    // in both byte orders.
    let u = UnionLayout::new(Repr::U16, vec![500, 0, 7], None).unwrap();
    let t = TypeDesc::Product(vec![
        TypeDesc::Prim(Prim::I32),
        TypeDesc::Union(u),
        TypeDesc::Product(vec![TypeDesc::Prim(Prim::Bool), TypeDesc::Prim(Prim::U64)]),
    ]);
    assert_eq!(t.size(), 4 + 2 + 1 + 8);

    let v = Value::List(vec![
        Value::I32(-2),
        Value::Variant(0),
        Value::List(vec![Value::Bool(true), Value::U64(300)]),
    ]);

    let mut le = vec![0u8; t.size()];
    assert_eq!(t.encode_le(&v, &mut le), Ok(15));
    assert_eq!(
        le,
        vec![254, 255, 255, 255, 244, 1, 1, 44, 1, 0, 0, 0, 0, 0, 0]
    );
    assert_eq!(t.decode_le(&le).unwrap(), v);

    let mut be = vec![0u8; t.size()];
    assert_eq!(t.encode_be(&v, &mut be), Ok(15));
    assert_eq!(
        be,
        vec![255, 255, 255, 254, 1, 244, 1, 0, 0, 0, 0, 0, 0, 1, 44]
    );
    assert_eq!(t.decode_be(&be).unwrap(), v);

    // An unmatched union tag fails the whole decode.
    let mut bad = le.clone();
    bad[4] = 9;
    assert_eq!(t.decode_le(&bad), Err(PodError::OutOfRange));
}

#[test]
fn array_composites() {
    // A fixed-length array composes like a homogeneous product: N times
    // the element size, elements in index order.
    let t = TypeDesc::Array(Box::new(TypeDesc::Prim(Prim::U16)), 3);
    assert_eq!(t.size(), 6);

    let v = Value::List(vec![Value::U16(1), Value::U16(256), Value::U16(0xABCD)]);
    let mut le = [0u8; 6];
    assert_eq!(t.encode_le(&v, &mut le), Ok(6));
    assert_eq!(le, [1, 0, 0, 1, 0xCD, 0xAB]);
    assert_eq!(t.decode_le(&le).unwrap(), v);

    let mut be = [0u8; 6];
    assert_eq!(t.encode_be(&v, &mut be), Ok(6));
    assert_eq!(be, [0, 1, 1, 0, 0xAB, 0xCD]);
    assert_eq!(t.decode_be(&be).unwrap(), v);

    // The first failing element aborts the whole decode.
    let bools = TypeDesc::Array(Box::new(TypeDesc::Prim(Prim::Bool)), 2);
    assert_eq!(bools.decode_le(&[2u8, 0u8]), Err(PodError::OutOfRange));
    assert_eq!(bools.decode_le(&[0u8]), Err(PodError::OutOfSpace));
    assert_eq!(
        bools.decode_le(&[1u8, 0u8]),
        Ok(Value::List(vec![Value::Bool(true), Value::Bool(false)]))
    );

    // Arrays nest inside products, and their zero is element-wise.
    let rec = TypeDesc::Product(vec![
        TypeDesc::Prim(Prim::U8),
        TypeDesc::Array(Box::new(TypeDesc::Prim(Prim::I16)), 2),
    ]);
    assert_eq!(rec.size(), 5);
    assert_eq!(
        rec.zeroed(),
        Value::List(vec![
            Value::U8(0),
            Value::List(vec![Value::I16(0), Value::I16(0)]),
        ])
    );
    let w = Value::List(vec![
        Value::U8(9),
        Value::List(vec![Value::I16(-1), Value::I16(2)]),
    ]);
    let mut out = [0u8; 5];
    assert_eq!(rec.encode_le(&w, &mut out), Ok(5));
    assert_eq!(out, [9, 255, 255, 2, 0]);
    assert_eq!(rec.decode_le(&out).unwrap(), w);

    // A zero-length array is a size-0 no-op.
    let none = TypeDesc::Array(Box::new(TypeDesc::Prim(Prim::U64)), 0);
    assert_eq!(none.size(), 0);
    assert_eq!(none.decode_be(&[]), Ok(Value::List(vec![])));
    assert_eq!(none.zeroed(), Value::List(vec![]));
}

#[test]
fn composite_zero_values() {
    // The product zero is the strict aggregate of field zeros; the union
    // zero picks the variant whose tag is the representation's zero.
    let u = UnionLayout::new(Repr::U8, vec![5, 0, 7], None).unwrap();
    let t = TypeDesc::Product(vec![
        TypeDesc::Prim(Prim::U16),
        TypeDesc::Union(u),
        TypeDesc::Prim(Prim::F64),
    ]);
    assert_eq!(
        t.zeroed(),
        Value::List(vec![
            Value::U16(0),
            Value::Variant(1),
            Value::F64Bits(0),
        ])
    );
    assert_eq!(f64::from_bits(0), 0.0f64);
}

#[test]
fn boolean_byte_range() {
    // Decoding byte 2 as boolean fails with OutOfRange in either byte
    // order; bytes 0 and 1 decode to false and true.
    assert_eq!(bool::from_le_bytes(&[2u8]), Err(PodError::OutOfRange));
    assert_eq!(bool::from_be_bytes(&[2u8]), Err(PodError::OutOfRange));
    assert_eq!(bool::from_le_bytes(&[0u8]), Ok(false));
    assert_eq!(bool::from_be_bytes(&[0u8]), Ok(false));
    assert_eq!(bool::from_le_bytes(&[1u8]), Ok(true));
    assert_eq!(bool::from_be_bytes(&[1u8]), Ok(true));
}

#[test]
fn primitive_round_trips() {
    // Round trip for every primitive leaf through the composer, both
    // byte orders.
    let cases: Vec<(TypeDesc, Value)> = vec![
        (TypeDesc::Prim(Prim::Bool), Value::Bool(true)),
        (TypeDesc::Prim(Prim::U8), Value::U8(200)),
        (TypeDesc::Prim(Prim::U16), Value::U16(40000)),
        (TypeDesc::Prim(Prim::U32), Value::U32(3000000000)),
        (TypeDesc::Prim(Prim::U64), Value::U64(u64::MAX - 1)),
        (TypeDesc::Prim(Prim::U128), Value::U128(u128::MAX - 1)),
        (TypeDesc::Prim(Prim::I8), Value::I8(-100)),
        (TypeDesc::Prim(Prim::I16), Value::I16(-30000)),
        (TypeDesc::Prim(Prim::I32), Value::I32(i32::MIN)),
        (TypeDesc::Prim(Prim::I64), Value::I64(i64::MIN + 5)),
        (TypeDesc::Prim(Prim::I128), Value::I128(i128::MIN)),
        (TypeDesc::Prim(Prim::F32), Value::F32Bits((-1.0f32).to_bits())),
        (TypeDesc::Prim(Prim::F64), Value::F64Bits(1.5f64.to_bits())),
    ];
    for (t, v) in cases {
        let n = t.size();
        let mut le = vec![0u8; n];
        assert_eq!(t.encode_le(&v, &mut le), Ok(n));
        assert_eq!(t.decode_le(&le).unwrap(), v);
        let mut be = vec![0u8; n];
        assert_eq!(t.encode_be(&v, &mut be), Ok(n));
        assert_eq!(t.decode_be(&be).unwrap(), v);
        // The two byte orders mirror each other for the scalar leaves.
        let rev: Vec<u8> = le.iter().rev().cloned().collect();
        if !matches!(t, TypeDesc::Prim(Prim::Bool)) {
            assert_eq!(rev, be);
        }
    }
    // The bit patterns the composer writes for floats match the machine
    // float layout byte for byte.
    let mut out = [0u8; 4];
    assert_eq!(
        TypeDesc::Prim(Prim::F32).encode_le(
            &Value::F32Bits(1.5f32.to_bits()),
            &mut out
        ),
        Ok(4)
    );
    assert_eq!(out, 1.5f32.to_le_bytes());
    assert_eq!(<u32 as Pod>::size(), 4);
}
