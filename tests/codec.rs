use ws_bitpack::{
    BitPackError, BitPackReader, BitPackWriter, FieldPlan, IntKind, Item, Member, MemberPlan,
    Record, RecordPlan, Scalar, Shape, UnionPlan, Value, WriteArrayValue, WritePackedArrayValue,
    WritePackedValue, WriteValue,
};

fn field(shape: Shape, aligned: bool) -> MemberPlan {
    MemberPlan::Field(FieldPlan { shape, aligned })
}

fn single(sc: Scalar) -> MemberPlan {
    field(Shape::Single(sc), false)
}

fn one(it: Item) -> Member {
    Member::Field(Value::One(it))
}

fn encode(plan: &RecordPlan, rec: &Record, start: usize) -> (Result<(), BitPackError>, usize, Vec<u8>) {
    let mut writer = BitPackWriter::with_position(vec![0u8; 256], start);
    let r = plan.encode(&mut writer, rec);
    let end = writer.position();
    (r, end, writer.into_bytes())
}

fn decode(plan: &RecordPlan, bytes: &[u8], start: usize) -> (Result<Record, BitPackError>, usize) {
    let mut reader = BitPackReader::with_position(bytes, start);
    let r = plan.decode(&mut reader);
    (r, reader.position())
}

#[test]
fn wide_string_round_trip() {
    let plan = RecordPlan { members: vec![single(Scalar::Text)] };
    let rec = Record { members: vec![one(Item::Text("héllo \u{1F600}".to_string()))] };
    let (r, end, bytes) = encode(&plan, &rec, 3);
    assert!(r.is_ok());
    // 1 + 7 bits of prefix, then 8 code units (the emoji takes two)
    assert_eq!(end - 3, 8 + 8 * 16);
    let (back, pos) = decode(&plan, &bytes, 3);
    assert_eq!(back, Ok(rec));
    assert_eq!(pos, end);
}

#[test]
fn long_string_uses_extended_length() {
    let plan = RecordPlan { members: vec![single(Scalar::Text)] };
    let text: String = std::iter::repeat('a').take(200).collect();
    let rec = Record { members: vec![one(Item::Text(text))] };
    let (r, _, _) = encode(&plan, &rec, 0);
    assert_eq!(r, Err(BitPackError::OutOfBounds));
    let mut writer = BitPackWriter::new(vec![0u8; 512]);
    assert!(plan.encode(&mut writer, &rec).is_ok());
    assert_eq!(writer.position(), 1 + 15 + 200 * 16);
    assert_eq!(plan.bit_size(&rec, 0), 1 + 15 + 200 * 16);
    let bytes2 = writer.into_bytes();
    // extended flag, then 200 in 15 bits
    assert_eq!(bytes2[0] & 1, 1);
    let mut reader = BitPackReader::new(&bytes2);
    assert!(reader.read_bit().unwrap());
    assert_eq!(reader.read_u64(15), Ok(200));
    let (back, _) = decode(&plan, &bytes2, 0);
    assert_eq!(back, Ok(rec));
}

#[test]
fn ascii_string_round_trip() {
    let plan = RecordPlan { members: vec![single(Scalar::Ascii)] };
    let rec = Record { members: vec![one(Item::Text("clamoune".to_string()))] };
    let (r, end, bytes) = encode(&plan, &rec, 0);
    assert!(r.is_ok());
    assert_eq!(end, 8 + 8 * 8);
    assert_eq!(&bytes[..9], &[0x10, b'c', b'l', b'a', b'm', b'o', b'u', b'n', b'e']);
    let (back, _) = decode(&plan, &bytes, 0);
    assert_eq!(back, Ok(rec));
}

#[test]
fn non_ascii_text_in_ascii_field_is_refused() {
    let plan = RecordPlan { members: vec![single(Scalar::Ascii)] };
    let rec = Record { members: vec![one(Item::Text("é".to_string()))] };
    let (r, end, _) = encode(&plan, &rec, 0);
    assert_eq!(r, Err(BitPackError::InvalidStringEncoding));
    assert_eq!(end, 0);
}

#[test]
fn ascii_decode_rejects_high_bytes() {
    let plan = RecordPlan { members: vec![single(Scalar::Ascii)] };
    // length 1, then the byte 0xe9
    let bytes = vec![0x02u8, 0xe9];
    let (back, _) = decode(&plan, &bytes, 0);
    assert_eq!(back, Err(BitPackError::InvalidStringEncoding));
}

#[test]
fn unpaired_surrogate_is_an_encoding_error() {
    let plan = RecordPlan { members: vec![single(Scalar::Text)] };
    let mut writer = BitPackWriter::new(vec![0u8; 8]);
    writer.write_bit(false).unwrap();
    writer.write_u64(1, 7).unwrap();
    writer.write_u64(0xd800, 16).unwrap();
    let bytes = writer.into_bytes();
    let (back, _) = decode(&plan, &bytes, 0);
    assert_eq!(back, Err(BitPackError::InvalidStringEncoding));
}

#[test]
fn truncated_string_is_out_of_bounds() {
    let plan = RecordPlan { members: vec![single(Scalar::Text)] };
    // claims 5 code units, holds one
    let bytes = vec![0x0au8, 0x41, 0x00];
    let (back, _) = decode(&plan, &bytes, 0);
    assert_eq!(back, Err(BitPackError::OutOfBounds));
}

#[test]
fn list_length_mismatch_is_reported() {
    let plan = RecordPlan {
        members: vec![
            single(Scalar::Int { kind: IntKind::U8, bits: 8 }),
            field(Shape::List { elem: Scalar::Bool, length: 0 }, false),
        ],
    };
    let rec = Record {
        members: vec![
            one(Item::Int(3)),
            Member::Field(Value::Many(vec![Item::Bool(true), Item::Bool(false)])),
        ],
    };
    let (r, end, _) = encode(&plan, &rec, 0);
    assert_eq!(r, Err(BitPackError::LengthMismatch));
    assert_eq!(end, 0);
}

#[test]
fn record_that_does_not_fit_is_out_of_bounds() {
    let plan = RecordPlan {
        members: vec![single(Scalar::Int { kind: IntKind::U64, bits: 64 })],
    };
    let rec = Record { members: vec![one(Item::Int(1))] };
    let mut writer = BitPackWriter::new(vec![0u8; 4]);
    assert_eq!(plan.encode(&mut writer, &rec), Err(BitPackError::OutOfBounds));
}

#[test]
fn packed_signed_field_does_not_sign_extend() {
    let plan = RecordPlan {
        members: vec![single(Scalar::Int { kind: IntKind::I8, bits: 5 })],
    };
    // five one bits
    let bytes = vec![0x1fu8];
    let (back, _) = decode(&plan, &bytes, 0);
    assert_eq!(back, Ok(Record { members: vec![one(Item::Int(31))] }));
    // a full-width signed field does
    let plan = RecordPlan {
        members: vec![single(Scalar::Int { kind: IntKind::I8, bits: 8 })],
    };
    let bytes = vec![0xffu8];
    let (back, _) = decode(&plan, &bytes, 0);
    assert_eq!(back, Ok(Record { members: vec![one(Item::Int(-1))] }));
}

#[test]
fn wide_packed_field_truncates_to_native_width() {
    let plan = RecordPlan {
        members: vec![single(Scalar::Int { kind: IntKind::U8, bits: 12 })],
    };
    let bytes = vec![0x34u8, 0x02];
    let (back, pos) = decode(&plan, &bytes, 0);
    assert_eq!(back, Ok(Record { members: vec![one(Item::Int(0x34))] }));
    assert_eq!(pos, 12);
}

#[test]
fn float_and_bool_fields() {
    let plan = RecordPlan { members: vec![single(Scalar::Bool), single(Scalar::Float)] };
    let rec = Record {
        members: vec![one(Item::Bool(true)), one(Item::Float(1.5f32.to_bits()))],
    };
    let (r, end, bytes) = encode(&plan, &rec, 0);
    assert!(r.is_ok());
    assert_eq!(end, 33);
    let (back, _) = decode(&plan, &bytes, 0);
    assert_eq!(back, Ok(rec));
}

#[test]
fn aligned_field_size_depends_on_start() {
    let plan = RecordPlan {
        members: vec![
            single(Scalar::Bool),
            field(Shape::Single(Scalar::Int { kind: IntKind::U8, bits: 8 }), true),
        ],
    };
    let rec = Record { members: vec![one(Item::Bool(true)), one(Item::Int(0xab))] };
    assert_eq!(plan.bit_size(&rec, 0), 16);
    assert_eq!(plan.bit_size(&rec, 7), 9);
    for start in 0..16 {
        let (r, end, bytes) = encode(&plan, &rec, start);
        assert!(r.is_ok());
        assert_eq!(end - start, plan.bit_size(&rec, start));
        let (back, pos) = decode(&plan, &bytes, start);
        assert_eq!(back, Ok(rec.clone()));
        assert_eq!(pos, end);
    }
}

#[test]
fn union_variant_round_trip_and_size() {
    let plan = RecordPlan {
        members: vec![
            single(Scalar::Int { kind: IntKind::U8, bits: 2 }),
            MemberPlan::Union {
                variant: 0,
                aligned: true,
                variants: vec![
                    vec![],
                    vec![
                        FieldPlan {
                            shape: Shape::Single(Scalar::Int { kind: IntKind::U8, bits: 3 }),
                            aligned: false,
                        },
                        FieldPlan {
                            shape: Shape::List {
                                elem: Scalar::Int { kind: IntKind::I16, bits: 16 },
                                length: 0,
                            },
                            aligned: false,
                        },
                    ],
                ],
            },
        ],
    };
    let rec = Record {
        members: vec![
            one(Item::Int(1)),
            Member::Union(
                1,
                vec![
                    Value::One(Item::Int(2)),
                    Value::Many(vec![Item::Int(-1), Item::Int(300)]),
                ],
            ),
        ],
    };
    let (r, end, bytes) = encode(&plan, &rec, 0);
    assert!(r.is_ok());
    assert_eq!(end, 8 + 3 + 32);
    assert_eq!(plan.bit_size(&rec, 0), end);
    let (back, pos) = decode(&plan, &bytes, 0);
    assert_eq!(back, Ok(rec));
    assert_eq!(pos, end);
}

#[test]
fn typed_values_through_generic_methods() {
    let mut writer = BitPackWriter::new(vec![0u8; 16]);
    writer.write(&-2i16).unwrap();
    writer.write_packed(&5u32, 3).unwrap();
    writer.write(&true).unwrap();
    writer.write_array(&vec![1u8, 2, 3]).unwrap();
    writer.write_packed_array(&vec![7u16, 1], 4).unwrap();
    assert_eq!(writer.position(), 16 + 3 + 1 + 24 + 8);
    let bytes = writer.into_bytes();
    let mut reader = BitPackReader::new(&bytes);
    assert_eq!(reader.read::<i16>(), Ok(-2));
    assert_eq!(reader.read_packed::<u32>(3), Ok(5));
    assert_eq!(reader.read::<bool>(), Ok(true));
    assert_eq!(reader.read_array::<Vec<u8>>(3), Ok(vec![1, 2, 3]));
    assert_eq!(reader.read_packed_array::<Vec<u16>>(2, 4), Ok(vec![7, 1]));
    assert_eq!(reader.read_array::<Vec<u64>>(2), Err(BitPackError::OutOfBounds));
}

#[test]
fn typed_sizes() {
    assert_eq!(123456789123456789u64.bits(), 64);
    assert_eq!((-12349i16).bits(), 16);
    assert_eq!(true.bits(), 1);
    assert_eq!(9u8.bits_packed(5), 5);
    assert_eq!(vec![1u32, 2, 3].bits_array(), 96);
    assert_eq!(vec![1u32, 2, 3].bits_packed_array(5), 15);
}

#[test]
fn plan_checks() {
    let good = RecordPlan {
        members: vec![
            single(Scalar::Int { kind: IntKind::U16, bits: 16 }),
            field(Shape::List { elem: Scalar::Int { kind: IntKind::U8, bits: 4 }, length: 0 }, false),
            MemberPlan::Union {
                variant: 0,
                aligned: false,
                variants: vec![vec![FieldPlan { shape: Shape::Single(Scalar::Bool), aligned: true }]],
            },
        ],
    };
    assert!(good.is_well_formed());
    // a list whose length field comes after it
    let bad = RecordPlan {
        members: vec![
            field(Shape::List { elem: Scalar::Bool, length: 1 }, false),
            single(Scalar::Int { kind: IntKind::U16, bits: 16 }),
        ],
    };
    assert!(!bad.is_well_formed());
    // a length field that is signed
    let signed = RecordPlan {
        members: vec![
            single(Scalar::Int { kind: IntKind::I16, bits: 16 }),
            field(Shape::List { elem: Scalar::Bool, length: 0 }, false),
        ],
    };
    assert!(!signed.is_well_formed());
    // a packed width of zero
    let zero = RecordPlan { members: vec![single(Scalar::Int { kind: IntKind::U8, bits: 0 })] };
    assert!(!zero.is_well_formed());
}

#[test]
fn record_type_checks() {
    let plan = RecordPlan {
        members: vec![
            single(Scalar::Int { kind: IntKind::U8, bits: 5 }),
            single(Scalar::Int { kind: IntKind::I16, bits: 16 }),
        ],
    };
    assert!(plan.fits(&Record { members: vec![one(Item::Int(31)), one(Item::Int(-32768))] }));
    // 32 does not fit 5 bits
    assert!(!plan.fits(&Record { members: vec![one(Item::Int(32)), one(Item::Int(0))] }));
    // out of the i16 range
    assert!(!plan.fits(&Record { members: vec![one(Item::Int(0)), one(Item::Int(32768))] }));
    // wrong kind of element
    assert!(!plan.fits(&Record { members: vec![one(Item::Bool(true)), one(Item::Int(0))] }));
    // wrong number of members
    assert!(!plan.fits(&Record { members: vec![one(Item::Int(0))] }));
}

#[test]
fn union_plan_on_its_own() {
    let plan = UnionPlan {
        variants: vec![
            vec![FieldPlan {
                shape: Shape::Single(Scalar::Int { kind: IntKind::U64, bits: 64 }),
                aligned: false,
            }],
            vec![FieldPlan {
                shape: Shape::Single(Scalar::Int { kind: IntKind::I16, bits: 16 }),
                aligned: false,
            }],
        ],
    };
    let fields = vec![Value::One(Item::Int(-12349))];
    let mut writer = BitPackWriter::new(vec![0u8; 4]);
    assert!(plan.encode(&mut writer, 1, &fields).is_ok());
    assert_eq!(writer.position(), 16);
    assert_eq!(plan.encode(&mut writer, 2, &fields), Err(BitPackError::InvalidUnionVariant));
    assert_eq!(writer.position(), 16);
    let bytes = writer.into_bytes();
    let mut reader = BitPackReader::new(&bytes);
    assert_eq!(plan.decode(&mut reader, 1), Ok(fields));
    let mut reader = BitPackReader::new(&bytes);
    assert_eq!(plan.decode(&mut reader, 2), Err(BitPackError::InvalidUnionVariant));
    assert_eq!(Member::Union(1, vec![]).variant(), Some(1));
    assert_eq!(Member::Field(Value::One(Item::Bool(true))).variant(), None);
}
