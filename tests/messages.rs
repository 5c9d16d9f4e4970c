use ws_bitpack::{
    BitPackError, BitPackReader, BitPackWriter, FieldPlan, IntKind, Item, Member, MemberPlan,
    Record, RecordPlan, Scalar, Shape, Value, WriteValue,
};

fn int_field(kind: IntKind, bits: usize) -> FieldPlan {
    FieldPlan { shape: Shape::Single(Scalar::Int { kind, bits }), aligned: false }
}

fn plain(kind: IntKind, bits: usize) -> MemberPlan {
    MemberPlan::Field(int_field(kind, bits))
}

fn num(v: i128) -> Member {
    Member::Field(Value::One(Item::Int(v)))
}

fn nums(vs: &[i128]) -> Member {
    Member::Field(Value::Many(vs.iter().map(|v| Item::Int(*v)).collect()))
}

fn write_and_read(plan: &RecordPlan, input: &Record) -> Record {
    let mut writer = BitPackWriter::new(vec![0u8; 65536]);
    plan.encode(&mut writer, input).unwrap();
    writer.align().unwrap();
    let buf = writer.into_bytes();
    let mut reader = BitPackReader::new(&buf);
    plan.decode(&mut reader).unwrap()
}

fn message_0002() -> RecordPlan {
    RecordPlan {
        members: vec![
            plain(IntKind::U32, 32),
            plain(IntKind::U32, 32),
            plain(IntKind::U32, 32),
            plain(IntKind::U32, 32),
            plain(IntKind::U64, 64),
            plain(IntKind::U16, 16),
            plain(IntKind::U8, 5),
            plain(IntKind::U32, 32),
            plain(IntKind::U32, 32),
            plain(IntKind::U64, 64),
        ],
    }
}

fn message_0002_value() -> Record {
    Record {
        members: vec![
            num(6152),
            num(0),
            num(17),
            num(0),
            num(0),
            num(0),
            num(9),
            num(2629306514),
            num(0),
            num(0),
        ],
    }
}

fn message_02ee() -> RecordPlan {
    RecordPlan {
        members: vec![
            plain(IntKind::U32, 32),
            MemberPlan::Field(FieldPlan {
                shape: Shape::Fixed {
                    elem: Scalar::Int { kind: IntKind::U8, bits: 8 },
                    count: 16,
                },
                aligned: true,
            }),
            MemberPlan::Field(FieldPlan { shape: Shape::Single(Scalar::Text), aligned: false }),
        ],
    }
}

fn union_struct() -> RecordPlan {
    RecordPlan {
        members: vec![
            plain(IntKind::U32, 32),
            MemberPlan::Union {
                variant: 0,
                aligned: false,
                variants: vec![
                    vec![int_field(IntKind::U64, 64)],
                    vec![int_field(IntKind::I16, 16)],
                ],
            },
        ],
    }
}

fn int_at(rec: &Record, i: usize) -> i128 {
    match &rec.members[i] {
        Member::Field(Value::One(Item::Int(v))) => *v,
        _ => panic!("not an integer field"),
    }
}

#[test]
fn test_vec_write_read() {
    let plan = RecordPlan {
        members: vec![
            plain(IntKind::U32, 32),
            MemberPlan::Field(FieldPlan {
                shape: Shape::List { elem: Scalar::Int { kind: IntKind::U32, bits: 32 }, length: 0 },
                aligned: false,
            }),
        ],
    };
    let in_value = Record { members: vec![num(5), nums(&[1, 2, 3, 4, 5])] };
    let out_value = write_and_read(&plan, &in_value);
    assert_eq!(in_value.members[0], out_value.members[0]);
    assert_eq!(in_value.members[1], out_value.members[1]);
}

#[test]
fn test_packed_write_read() {
    let plan = RecordPlan { members: vec![plain(IntKind::U32, 5)] };
    let in_value = Record { members: vec![num(5)] };
    let out_value = write_and_read(&plan, &in_value);
    assert_eq!(in_value.members[0], out_value.members[0]);
}

#[test]
fn test_packed_vec_write_read() {
    let plan = RecordPlan {
        members: vec![
            plain(IntKind::U32, 32),
            MemberPlan::Field(FieldPlan {
                shape: Shape::List { elem: Scalar::Int { kind: IntKind::U32, bits: 5 }, length: 0 },
                aligned: false,
            }),
        ],
    };
    let in_value = Record { members: vec![num(5), nums(&[1, 2, 3, 4, 5])] };
    let out_value = write_and_read(&plan, &in_value);
    assert_eq!(in_value.members[0], out_value.members[0]);
    assert_eq!(in_value.members[1], out_value.members[1]);
}

#[test]
fn test_union() {
    let plan = union_struct();

    // test first variant
    let in_value = Record {
        members: vec![
            num(0),
            Member::Union(0, vec![Value::One(Item::Int(123456789123456789))]),
        ],
    };
    let out_value = write_and_read(&plan, &in_value);
    let out_union_value = match &out_value.members[1] {
        Member::Union(0, fields) => match &fields[0] {
            Value::One(Item::Int(v)) => Some(*v as u64),
            _ => None,
        },
        _ => None,
    };
    assert_eq!(out_union_value, Some(123456789123456789));
    assert_eq!(out_union_value.unwrap().bits(), 64);

    // test second variant
    let in_value = Record {
        members: vec![num(1), Member::Union(1, vec![Value::One(Item::Int(-12349))])],
    };
    let out_value = write_and_read(&plan, &in_value);
    let out_union_value = match &out_value.members[1] {
        Member::Union(1, fields) => match &fields[0] {
            Value::One(Item::Int(v)) => Some(*v as i16),
            _ => None,
        },
        _ => None,
    };
    assert_eq!(out_union_value, Some(-12349));
    assert_eq!(out_union_value.unwrap().bits(), 16);

    // test invalid variant: reported as an error, on both sides
    let in_value = Record {
        members: vec![num(2), Member::Union(1, vec![Value::One(Item::Int(0))])],
    };
    let mut writer = BitPackWriter::new(vec![0u8; 64]);
    assert_eq!(plan.encode(&mut writer, &in_value), Err(BitPackError::InvalidUnionVariant));
    assert_eq!(writer.position(), 0);
    let mut writer = BitPackWriter::new(vec![0u8; 64]);
    writer.write_u64(2, 32).unwrap();
    writer.write_u64(0, 16).unwrap();
    let buf = writer.into_bytes();
    let mut reader = BitPackReader::new(&buf);
    assert_eq!(plan.decode(&mut reader), Err(BitPackError::InvalidUnionVariant));
}

#[test]
fn test_simple_read() {
    let data = "2f00000240c00000000000008800000000000000000000\
        00000000000000489208b89c000000000000000000000000";
    let data = hex::decode(data).unwrap();
    let mut reader = BitPackReader::new(&data);

    // header
    reader.read_u64(24).unwrap();
    reader.read_u64(11).unwrap();

    let result = message_0002().decode(&mut reader).unwrap();
    assert_eq!(int_at(&result, 0), 6152);
    assert_eq!(int_at(&result, 1), 0);
    assert_eq!(int_at(&result, 2), 17);
    assert_eq!(int_at(&result, 3), 0);
    assert_eq!(int_at(&result, 4), 0);
    assert_eq!(int_at(&result, 5), 0);
    assert_eq!(int_at(&result, 6), 9);
    assert_eq!(int_at(&result, 7), 2629306514);
    assert_eq!(int_at(&result, 8), 0);
    assert_eq!(int_at(&result, 9), 0);
}

#[test]
fn test_simple_write() {
    let mut writer = BitPackWriter::new(vec![0u8; 47]);

    let message = message_0002_value();

    // header
    assert!(writer.write_u64(47, 24).is_ok());
    assert!(writer.write_u64(2, 11).is_ok());
    message_0002().encode(&mut writer, &message).unwrap();

    // check final buffer
    assert_eq!(
        hex::encode(writer.as_bytes()),
        "2f00000240c00000000000008800000000000000000000\
        00000000000000489208b89c000000000000000000000000"
    );
}

#[test]
fn test_simple_bits() {
    let message = message_0002_value();
    assert_eq!(message_0002().bit_size(&message, 0), 341);
}

#[test]
fn test_message_2() {
    let data: Vec<u8> = hex::decode(
        "2a0000ee0aae010000ba75a452f8a21b49b0d886ed\
        0d9e58a81063006c0061006d006f0075006e006500",
    )
    .unwrap();

    let guid_data = hex::decode("ba75a452f8a21b49b0d886ed0d9e58a8").unwrap();
    let mut reader = BitPackReader::new(&data);

    // header
    reader.read_u64(24).unwrap();
    reader.read_u64(11).unwrap();

    let result = message_02ee().decode(&mut reader).unwrap();
    assert_eq!(int_at(&result, 0), 13761);
    let guid: Vec<u8> = match &result.members[1] {
        Member::Field(Value::Many(items)) => items
            .iter()
            .map(|i| match i {
                Item::Int(v) => *v as u8,
                _ => panic!("not a byte"),
            })
            .collect(),
        _ => panic!("not a byte array"),
    };
    assert_eq!(guid, guid_data.as_slice());
    assert_eq!(result.members[2], Member::Field(Value::One(Item::Text("clamoune".to_string()))));
}
