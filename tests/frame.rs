use byteme::codec::{DecodeError, FieldValue};
use byteme::schema::{ByteMeStruct, DeclaredType, FieldDecl, StructDecl};
use byteme::frame::{ServerGreetingFrame, ServerGreetingMode, SERVER_GREETING_SIZE};

fn sample(mode: ServerGreetingMode) -> ServerGreetingFrame {
    ServerGreetingFrame {
        unused: [0; 12],
        mode,
        challenge: [7; 16],
        salt: [0x5a; 16],
        count: 1024,
        mbz: [0; 12],
    }
}

#[test]
fn greeting_size_and_delimiter() {
    assert_eq!(SERVER_GREETING_SIZE, 74);
    assert_eq!(ServerGreetingFrame::size(), 74);
    assert_eq!(sample(ServerGreetingMode::Encrypted).get_delimiter(), vec![0, 74]);
}

#[test]
fn greeting_bytes() {
    let bytes = sample(ServerGreetingMode::Authenticated).to_bytes();
    assert_eq!(bytes.len(), 74);
    assert_eq!(&bytes[12..14], &[0, 2]);
    assert_eq!(&bytes[14..30], &[7; 16]);
    assert_eq!(&bytes[30..46], &[0x5a; 16]);
    let mut count = [0u8; 16];
    count[14] = 4;
    assert_eq!(&bytes[46..62], &count);
}

#[test]
fn greeting_round_trip() {
    for mode in [
        ServerGreetingMode::Unavailable,
        ServerGreetingMode::Unauthenticated,
        ServerGreetingMode::Authenticated,
        ServerGreetingMode::Encrypted,
    ] {
        let f = sample(mode);
        assert_eq!(ServerGreetingFrame::from_bytes(&f.to_bytes()), Ok(f));
    }
}

#[test]
fn greeting_mode_values() {
    assert_eq!(ServerGreetingMode::Encrypted.to_u16(), 4);
    assert_eq!(ServerGreetingMode::from_u16(2), Some(ServerGreetingMode::Authenticated));
    assert_eq!(ServerGreetingMode::from_u16(3), None);
}

#[test]
fn greeting_unknown_mode() {
    let mut bytes = sample(ServerGreetingMode::Unavailable).to_bytes();
    bytes[13] = 3;
    assert_eq!(
        ServerGreetingFrame::from_bytes(&bytes),
        Err(DecodeError::UnknownEnumValue { field: 1, value: 3 })
    );
}

#[test]
fn greeting_wrong_length() {
    assert_eq!(
        ServerGreetingFrame::from_bytes(&[0u8; 75]),
        Err(DecodeError::LengthMismatch { expected: 74, actual: 75 })
    );
}

fn decl(name: &str, ty: DeclaredType, attr: Option<&str>, variants: Vec<u128>) -> FieldDecl {
    FieldDecl {
        name: Some(name.to_string()),
        ty,
        width_attr: attr.map(|a| vec![a.to_string()]),
        variants,
    }
}

fn bytes_ty(len: usize) -> DeclaredType {
    DeclaredType::Array { elem: "u8".to_string(), len }
}

#[test]
fn greeting_matches_generic_layout() {
    let layout = ByteMeStruct::parse(&StructDecl {
        name: "ServerGreetingFrame".to_string(),
        fields: vec![
            decl("unused", bytes_ty(12), None, vec![]),
            decl(
                "mode",
                DeclaredType::Path { path: "ServerGreetingMode".to_string() },
                Some("u16"),
                vec![0, 1, 2, 4],
            ),
            decl("challenge", bytes_ty(16), None, vec![]),
            decl("salt", bytes_ty(16), None, vec![]),
            decl("count", DeclaredType::Path { path: "u128".to_string() }, None, vec![]),
            decl("mbz", bytes_ty(12), None, vec![]),
        ],
    })
    .unwrap();
    assert_eq!(layout.size(), ServerGreetingFrame::SIZE);
    let f = sample(ServerGreetingMode::Encrypted);
    let record = vec![
        FieldValue::Bytes(f.unused.to_vec()),
        FieldValue::Variant(3),
        FieldValue::Bytes(f.challenge.to_vec()),
        FieldValue::Bytes(f.salt.to_vec()),
        FieldValue::Int(f.count),
        FieldValue::Bytes(f.mbz.to_vec()),
    ];
    assert_eq!(layout.encode(&record).unwrap(), f.to_bytes());
    assert_eq!(layout.get_delimiter(), f.get_delimiter());
}

#[test]
fn greeting_layout_codec_agrees() {
    let layout = ServerGreetingFrame::layout();
    assert_eq!(layout.size(), 74);
    assert_eq!(layout.fields.len(), 6);
    let f = sample(ServerGreetingMode::Unauthenticated);
    let record = f.to_record();
    assert_eq!(record[1], FieldValue::Variant(1));
    let bytes = layout.encode(&record).unwrap();
    assert_eq!(bytes, f.to_bytes());
    assert_eq!(layout.decode(&bytes).unwrap(), record);
}
