use byteme::bytes::{push_be, read_be};
use byteme::codec::{DecodeError, FieldValue};
use byteme::schema::{
    enum_values, fits_in, uint_from_name, ByteMeField, ByteMeStruct, DeclaredType, FieldDecl,
    FieldError, FieldKind, SchemaError, StructDecl, UInt,
};

fn array(name: &str, elem: &str, len: usize) -> FieldDecl {
    FieldDecl {
        name: Some(name.to_string()),
        ty: DeclaredType::Array { elem: elem.to_string(), len },
        width_attr: None,
        variants: Vec::new(),
    }
}

fn integer(name: &str, ty: &str) -> FieldDecl {
    FieldDecl {
        name: Some(name.to_string()),
        ty: DeclaredType::Path { path: ty.to_string() },
        width_attr: None,
        variants: Vec::new(),
    }
}

fn enumeration(name: &str, ty: &str, attr: &[&str], variants: &[u128]) -> FieldDecl {
    FieldDecl {
        name: Some(name.to_string()),
        ty: DeclaredType::Path { path: ty.to_string() },
        width_attr: Some(attr.iter().map(|a| a.to_string()).collect()),
        variants: variants.to_vec(),
    }
}

fn frame_one_decl() -> StructDecl {
    StructDecl {
        name: "FrameOne".to_string(),
        fields: vec![
            array("unused", "u8", 12),
            enumeration("mode", "Mode", &["u32"], &[0, 1, 2, 4]),
            array("challenge", "u8", 16),
            array("salt", "u8", 16),
            integer("count", "u32"),
            array("mbz", "u8", 12),
        ],
    }
}

fn frame_one_record(mode: usize, count: u128) -> Vec<FieldValue> {
    vec![
        FieldValue::Bytes(vec![0; 12]),
        FieldValue::Variant(mode),
        FieldValue::Bytes(vec![0; 16]),
        FieldValue::Bytes(vec![0; 16]),
        FieldValue::Int(count),
        FieldValue::Bytes(vec![0; 12]),
    ]
}

fn parse_err(fields: Vec<FieldDecl>) -> SchemaError {
    match ByteMeStruct::parse(&StructDecl { name: "S".to_string(), fields }) {
        Ok(_) => panic!("schema accepted"),
        Err(e) => e,
    }
}

#[test]
fn frame_one_size_is_sum_of_widths() {
    let s = ByteMeStruct::parse(&frame_one_decl()).unwrap();
    assert_eq!(s.size(), 64);
    let widths: Vec<usize> = s.fields.iter().map(|f| f.width).collect();
    assert_eq!(widths, vec![12, 4, 16, 16, 4, 12]);
    assert_eq!(s.name, "FrameOne");
}

#[test]
fn frame_one_encoding_bytes() {
    let s = ByteMeStruct::parse(&frame_one_decl()).unwrap();
    let bytes = s.encode(&frame_one_record(1, 1024)).unwrap();
    assert_eq!(bytes.len(), 64);
    assert_eq!(&bytes[12..16], &[0, 0, 0, 1]);
    assert_eq!(&bytes[48..52], &[0, 0, 4, 0]);
    assert!(bytes[52..64].iter().all(|b| *b == 0));
    assert!(bytes[..12].iter().all(|b| *b == 0));
}

#[test]
fn frame_one_round_trip() {
    let s = ByteMeStruct::parse(&frame_one_decl()).unwrap();
    let record = frame_one_record(1, 1024);
    let bytes = s.encode(&record).unwrap();
    assert_eq!(s.decode(&bytes).unwrap(), record);
}

#[test]
fn frame_one_delimiter() {
    let s = ByteMeStruct::parse(&frame_one_decl()).unwrap();
    assert_eq!(s.get_delimiter(), vec![0x00, 0x40]);
}

#[test]
fn round_trip_with_nonzero_arrays_and_every_variant() {
    let s = ByteMeStruct::parse(&frame_one_decl()).unwrap();
    for mode in 0..4 {
        let record = vec![
            FieldValue::Bytes((0..12).collect()),
            FieldValue::Variant(mode),
            FieldValue::Bytes((100..116).collect()),
            FieldValue::Bytes(vec![0xff; 16]),
            FieldValue::Int(0xdead_beef),
            FieldValue::Bytes((200..212).collect()),
        ];
        let bytes = s.encode(&record).unwrap();
        assert_eq!(&bytes[0..12], &(0..12).collect::<Vec<u8>>()[..]);
        assert_eq!(&bytes[16..32], &(100..116).collect::<Vec<u8>>()[..]);
        assert_eq!(&bytes[48..52], &[0xde, 0xad, 0xbe, 0xef]);
        assert_eq!(s.decode(&bytes).unwrap(), record);
    }
}

#[test]
fn variant_encodes_to_its_numeric_value() {
    let s = ByteMeStruct::parse(&frame_one_decl()).unwrap();
    let bytes = s.encode(&frame_one_record(3, 0)).unwrap();
    assert_eq!(&bytes[12..16], &[0, 0, 0, 4]);
}

#[test]
fn unknown_enum_value_is_rejected() {
    let s = ByteMeStruct::parse(&frame_one_decl()).unwrap();
    let mut bytes = s.encode(&frame_one_record(0, 7)).unwrap();
    bytes[15] = 3;
    assert_eq!(
        s.decode(&bytes),
        Err(DecodeError::UnknownEnumValue { field: 1, value: 3 })
    );
}

#[test]
fn wrong_length_is_rejected() {
    let s = ByteMeStruct::parse(&frame_one_decl()).unwrap();
    assert_eq!(
        s.decode(&[0u8; 63]),
        Err(DecodeError::LengthMismatch { expected: 64, actual: 63 })
    );
    assert_eq!(
        s.decode(&[]),
        Err(DecodeError::LengthMismatch { expected: 64, actual: 0 })
    );
}

#[test]
fn ill_fitting_records_are_not_encoded() {
    let s = ByteMeStruct::parse(&frame_one_decl()).unwrap();
    assert_eq!(s.encode(&frame_one_record(4, 0)), None);
    assert_eq!(s.encode(&frame_one_record(0, 1 << 32)), None);
    let mut short = frame_one_record(0, 0);
    short.pop();
    assert_eq!(s.encode(&short), None);
    let mut wrong_kind = frame_one_record(0, 0);
    wrong_kind[0] = FieldValue::Int(0);
    assert_eq!(s.encode(&wrong_kind), None);
    let mut wrong_len = frame_one_record(0, 0);
    wrong_len[2] = FieldValue::Bytes(vec![0; 15]);
    assert_eq!(s.encode(&wrong_len), None);
}

#[test]
fn unnamed_field_is_rejected() {
    let mut f = integer("x", "u8");
    f.name = None;
    assert_eq!(
        parse_err(vec![integer("a", "u8"), f]),
        SchemaError::Field { index: 1, error: FieldError::Unnamed }
    );
}

#[test]
fn array_of_non_bytes_is_rejected() {
    assert_eq!(
        parse_err(vec![array("a", "u16", 4)]),
        SchemaError::Field { index: 0, error: FieldError::ArrayElementType }
    );
}

#[test]
fn two_attribute_arguments_are_rejected() {
    assert_eq!(
        parse_err(vec![enumeration("m", "Mode", &["u8", "u16"], &[0, 1])]),
        SchemaError::Field { index: 0, error: FieldError::AttributeArity }
    );
    assert_eq!(
        parse_err(vec![enumeration("m", "Mode", &[], &[0, 1])]),
        SchemaError::Field { index: 0, error: FieldError::AttributeArity }
    );
}

#[test]
fn unsupported_types_are_rejected() {
    assert_eq!(
        parse_err(vec![integer("a", "i32")]),
        SchemaError::Field { index: 0, error: FieldError::UnsupportedFieldType }
    );
    assert_eq!(
        parse_err(vec![enumeration("m", "Mode", &["String"], &[0])]),
        SchemaError::Field { index: 0, error: FieldError::UnsupportedFieldType }
    );
    let other = FieldDecl {
        name: Some("t".to_string()),
        ty: DeclaredType::Other,
        width_attr: None,
        variants: Vec::new(),
    };
    assert_eq!(
        parse_err(vec![other]),
        SchemaError::Field { index: 0, error: FieldError::UnsupportedFieldType }
    );
}

#[test]
fn enum_tables_are_checked() {
    assert_eq!(
        parse_err(vec![enumeration("m", "Mode", &["u8"], &[1, 2, 1])]),
        SchemaError::Field { index: 0, error: FieldError::DuplicateEnumValue }
    );
    assert_eq!(
        parse_err(vec![enumeration("m", "Mode", &["u8"], &[0, 256])]),
        SchemaError::Field { index: 0, error: FieldError::EnumValueTooWide }
    );
}

#[test]
fn first_invalid_field_is_named() {
    assert_eq!(
        parse_err(vec![integer("a", "u8"), array("b", "u32", 2), integer("c", "f32")]),
        SchemaError::Field { index: 1, error: FieldError::ArrayElementType }
    );
}

#[test]
fn oversized_record_is_rejected() {
    assert_eq!(
        parse_err(vec![array("a", "u8", 40000), array("b", "u8", 30000)]),
        SchemaError::SizeTooLarge
    );
    let s = ByteMeStruct::parse(&StructDecl {
        name: "S".to_string(),
        fields: vec![array("a", "u8", 65535)],
    })
    .unwrap();
    assert_eq!(s.size(), 65535);
    assert_eq!(s.get_delimiter(), vec![0xff, 0xff]);
}

#[test]
fn field_classification() {
    let f = ByteMeField::from_decl(&integer("n", "usize")).unwrap();
    assert_eq!(f.width, 8);
    assert!(matches!(f.kind, FieldKind::Integer(UInt::Usize)));
    let f = ByteMeField::from_decl(&enumeration("m", "Mode", &["u16"], &[0, 9])).unwrap();
    assert_eq!(f.width, 2);
    match f.kind {
        FieldKind::EnumMapped { enum_type, repr, values } => {
            assert_eq!(enum_type, "Mode");
            assert_eq!(repr, UInt::U16);
            assert_eq!(values, vec![0, 9]);
        }
        _ => panic!("not an enumeration"),
    }
    let f = ByteMeField::from_decl(&array("a", "u8", 5)).unwrap();
    assert_eq!(f.width, 5);
    assert!(matches!(f.kind, FieldKind::ByteArray));
}

#[test]
fn integer_names_and_widths() {
    let names = ["u8", "u16", "u32", "u64", "u128", "usize"];
    let widths = [1, 2, 4, 8, 16, 8];
    for (n, w) in names.iter().zip(widths.iter()) {
        assert_eq!(uint_from_name(n).unwrap().width(), *w);
    }
    assert_eq!(uint_from_name("u3"), None);
    assert_eq!(uint_from_name("i8"), None);
    assert_eq!(uint_from_name(""), None);
}

#[test]
fn big_endian_helpers() {
    let mut out = vec![9u8];
    push_be(&mut out, 0x0102_0304, 4);
    assert_eq!(out, vec![9, 1, 2, 3, 4]);
    assert_eq!(read_be(&out, 1, 4), 0x0102_0304);
    assert_eq!(read_be(&out, 0, 2), 0x0901);
    let mut wide = Vec::new();
    push_be(&mut wide, u128::MAX, 16);
    assert_eq!(wide, vec![0xff; 16]);
    assert_eq!(read_be(&wide, 0, 16), u128::MAX);
    assert!(fits_in(255, 1));
    assert!(!fits_in(256, 1));
    assert!(fits_in(u128::MAX, 16));
}

#[test]
fn integers_of_every_width_round_trip() {
    let s = ByteMeStruct::parse(&StructDecl {
        name: "Ints".to_string(),
        fields: vec![
            integer("a", "u8"),
            integer("b", "u16"),
            integer("c", "u64"),
            integer("d", "u128"),
            integer("e", "usize"),
        ],
    })
    .unwrap();
    assert_eq!(s.size(), 1 + 2 + 8 + 16 + 8);
    let record = vec![
        FieldValue::Int(0xab),
        FieldValue::Int(0x1234),
        FieldValue::Int(u64::MAX as u128),
        FieldValue::Int(u128::MAX - 5),
        FieldValue::Int(42),
    ];
    let bytes = s.encode(&record).unwrap();
    assert_eq!(&bytes[0..3], &[0xab, 0x12, 0x34]);
    assert_eq!(bytes[34], 42);
    assert_eq!(s.decode(&bytes).unwrap(), record);
}

#[test]
fn empty_schema() {
    let s = ByteMeStruct::parse(&StructDecl { name: "E".to_string(), fields: vec![] }).unwrap();
    assert_eq!(s.size(), 0);
    assert_eq!(s.encode(&vec![]).unwrap(), Vec::<u8>::new());
    assert_eq!(s.decode(&[]).unwrap(), vec![]);
    assert_eq!(s.get_delimiter(), vec![0, 0]);
}

#[test]
fn implicit_enum_values() {
    assert_eq!(enum_values(&vec![None, None, Some(7), None]), Some(vec![0, 1, 7, 8]));
    assert_eq!(enum_values(&vec![]), Some(vec![]));
    assert_eq!(enum_values(&vec![Some(u128::MAX), None]), None);
}

#[test]
fn empty_byte_array_is_rejected() {
    assert_eq!(
        parse_err(vec![integer("a", "u8"), array("b", "u8", 0)]),
        SchemaError::Field { index: 1, error: FieldError::EmptyArray }
    );
    assert!(matches!(
        ByteMeField::from_decl(&array("b", "u8", 0)),
        Err(FieldError::EmptyArray)
    ));
    assert_eq!(
        parse_err(vec![array("b", "u16", 0)]),
        SchemaError::Field { index: 0, error: FieldError::ArrayElementType }
    );
}

#[test]
fn duplicate_field_names_are_rejected() {
    assert_eq!(
        parse_err(vec![integer("a", "u8"), integer("b", "u8"), array("a", "u8", 2)]),
        SchemaError::DuplicateFieldName { index: 2, first: 0 }
    );
    assert_eq!(
        parse_err(vec![integer("a", "u8"), integer("a", "u8"), integer("c", "i8")]),
        SchemaError::DuplicateFieldName { index: 1, first: 0 }
    );
}
