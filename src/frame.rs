//! The server greeting frame: a record of fixed layout with its codec.
use vstd::prelude::*;
use crate::bytes::{
    be_bytes, be_value, copy_range, lemma_be_bytes_len, lemma_pow256_16, lemma_value_of_be_bytes,
    push_all, push_be, read_be,
};
use crate::codec::{encode_record, record_view, DecodeError, FieldValue, ValueView};
use crate::schema::{
    total_width, views, ByteMeField, ByteMeStruct, FieldKind, FieldView, KindView, UInt,
};

verus! {

/// The security mode a server offers, carried as a two-byte number.
#[derive(Clone, Copy, Debug, PartialEq, Eq, Structural)]
pub enum ServerGreetingMode {
    Unavailable,
    Unauthenticated,
    Authenticated,
    Encrypted,
}

impl ServerGreetingMode {
    /// The mode's numeric value.
    pub open spec fn spec_value(self) -> nat {
        match self {
            ServerGreetingMode::Unavailable => 0,
            ServerGreetingMode::Unauthenticated => 1,
            ServerGreetingMode::Authenticated => 2,
            ServerGreetingMode::Encrypted => 4,
        }
    }

    /// The mode whose numeric value is `n`, if any.
    pub open spec fn spec_from_value(n: nat) -> Option<ServerGreetingMode> {
        if n == 0 {
            Some(ServerGreetingMode::Unavailable)
        } else if n == 1 {
            Some(ServerGreetingMode::Unauthenticated)
        } else if n == 2 {
            Some(ServerGreetingMode::Authenticated)
        } else if n == 4 {
            Some(ServerGreetingMode::Encrypted)
        } else {
            None
        }
    }

    pub fn to_u16(&self) -> (r: u16)
        ensures
            r == self.spec_value(),
    {
        match self {
            ServerGreetingMode::Unavailable => 0,
            ServerGreetingMode::Unauthenticated => 1,
            ServerGreetingMode::Authenticated => 2,
            ServerGreetingMode::Encrypted => 4,
        }
    }

    pub fn from_u16(n: u16) -> (r: Option<ServerGreetingMode>)
        ensures
            r == Self::spec_from_value(n as nat),
    {
        if n == 0 {
            Some(ServerGreetingMode::Unavailable)
        } else if n == 1 {
            Some(ServerGreetingMode::Unauthenticated)
        } else if n == 2 {
            Some(ServerGreetingMode::Authenticated)
        } else if n == 4 {
            Some(ServerGreetingMode::Encrypted)
        } else {
            None
        }
    }
}

impl ServerGreetingMode {
    /// The mode's position among the variants.
    pub open spec fn spec_index(self) -> nat {
        match self {
            ServerGreetingMode::Unavailable => 0,
            ServerGreetingMode::Unauthenticated => 1,
            ServerGreetingMode::Authenticated => 2,
            ServerGreetingMode::Encrypted => 3,
        }
    }

    pub fn index(&self) -> (r: usize)
        ensures
            r == self.spec_index(),
    {
        match self {
            ServerGreetingMode::Unavailable => 0,
            ServerGreetingMode::Unauthenticated => 1,
            ServerGreetingMode::Authenticated => 2,
            ServerGreetingMode::Encrypted => 3,
        }
    }
}

/// The numeric values of the modes, in variant order.
pub open spec fn mode_values() -> Seq<u128> {
    seq![0u128, 1u128, 2u128, 4u128]
}

/// The layout of the server greeting frame as classified fields.
pub open spec fn greeting_fields() -> Seq<FieldView> {
    seq![
        FieldView { name: "unused"@, width: 12, kind: KindView::ByteArray },
        FieldView {
            name: "mode"@,
            width: 2,
            kind: KindView::EnumMapped {
                enum_type: "ServerGreetingMode"@,
                repr: UInt::U16,
                values: mode_values(),
            },
        },
        FieldView { name: "challenge"@, width: 16, kind: KindView::ByteArray },
        FieldView { name: "salt"@, width: 16, kind: KindView::ByteArray },
        FieldView { name: "count"@, width: 16, kind: KindView::Integer(UInt::U128) },
        FieldView { name: "mbz"@, width: 12, kind: KindView::ByteArray },
    ]
}

/// Every mode's value maps back to that mode.
pub proof fn lemma_mode_value_total(m: ServerGreetingMode)
    ensures
        ServerGreetingMode::spec_from_value(m.spec_value()) == Some(m),
{
}

/// The greeting a server sends first: 74 bytes on the wire.
#[derive(Clone, Copy, Debug, PartialEq, Eq)]
pub struct ServerGreetingFrame {
    pub unused: [u8; 12],
    pub mode: ServerGreetingMode,
    pub challenge: [u8; 16],
    pub salt: [u8; 16],
    pub count: u128,
    pub mbz: [u8; 12],
}

/// Total wire size of a server greeting frame in bytes.
pub const SERVER_GREETING_SIZE: usize = 74;

fn read_array<const N: usize>(bytes: &[u8], start: usize) -> (r: [u8; N])
    requires
        start + N <= bytes@.len(),
    ensures
        r@ == bytes@.subrange(start as int, start + N),
{
    let mut a = [0u8; N];
    let mut i: usize = 0;
    while i < N
        invariant
            i <= N,
            start + N <= bytes@.len(),
            a@.len() == N,
            forall|k: int| 0 <= k < i ==> a@[k] == bytes@[start + k],
        decreases N - i,
    {
        assert(start + i < bytes.len());
        let k: usize = start + i;
        a[i] = bytes[k];
        i = i + 1;
    }
    assert(a@ =~= bytes@.subrange(start as int, start + N));
    a
}

impl ServerGreetingFrame {
    /// Total wire size in bytes.
    pub const SIZE: usize = SERVER_GREETING_SIZE;

    /// The frame's wire bytes: its fields in declaration order, the mode as a
    /// two-byte and the count as a sixteen-byte big-endian number.
    pub open spec fn spec_bytes(&self) -> Seq<u8> {
        self.unused@ + be_bytes(self.mode.spec_value(), 2) + self.challenge@ + self.salt@
            + be_bytes(self.count as nat, 16) + self.mbz@
    }

    /// Whether `b` is the wire form of some frame: the right length, and a
    /// mode number that names a mode.
    pub open spec fn spec_decodable(b: Seq<u8>) -> bool {
        b.len() == SERVER_GREETING_SIZE && ServerGreetingMode::spec_from_value(
            be_value(b.subrange(12, 14)),
        ) is Some
    }

    pub fn size() -> (r: usize)
        ensures
            r == SERVER_GREETING_SIZE,
    {
        SERVER_GREETING_SIZE
    }

    /// The length-prefix frame header: the size as two big-endian bytes.
    pub fn get_delimiter(self) -> (r: Vec<u8>)
        ensures
            r@ == be_bytes(SERVER_GREETING_SIZE as nat, 2),
            r@ == seq![0u8, 74u8],
    {
        let mut r: Vec<u8> = Vec::new();
        push_be(&mut r, SERVER_GREETING_SIZE as u128, 2);
        assert(be_bytes(74, 2) =~= seq![0u8, 74u8]) by {
            reveal_with_fuel(be_bytes, 3);
        }
        r
    }

    /// Encodes the frame.
    pub fn to_bytes(&self) -> (r: Vec<u8>)
        ensures
            r@ == self.spec_bytes(),
            r@ == encode_record(greeting_fields(), self.spec_record()),
            r@.len() == SERVER_GREETING_SIZE,
    {
        let mut out: Vec<u8> = Vec::new();
        push_all(&mut out, self.unused.as_slice());
        push_be(&mut out, self.mode.to_u16() as u128, 2);
        push_all(&mut out, self.challenge.as_slice());
        push_all(&mut out, self.salt.as_slice());
        push_be(&mut out, self.count, 16);
        push_all(&mut out, self.mbz.as_slice());
        proof {
            lemma_be_bytes_len(self.mode.spec_value(), 2);
            lemma_be_bytes_len(self.count as nat, 16);
            lemma_frame_encoding_is_layout_encoding(*self);
        }
        out
    }

    /// Decodes a frame from exactly its wire size in bytes.
    pub fn from_bytes(bytes: &[u8]) -> (r: Result<ServerGreetingFrame, DecodeError>)
        ensures
            bytes@.len() != SERVER_GREETING_SIZE ==> r == Err::<ServerGreetingFrame, DecodeError>(
                DecodeError::LengthMismatch {
                    expected: SERVER_GREETING_SIZE,
                    actual: bytes@.len() as usize,
                },
            ),
            r is Ok <==> Self::spec_decodable(bytes@),
            r matches Ok(f) ==> f.spec_bytes() == bytes@,
            bytes@.len() == SERVER_GREETING_SIZE && !Self::spec_decodable(bytes@) ==> r
                == Err::<ServerGreetingFrame, DecodeError>(
                DecodeError::UnknownEnumValue {
                    field: 1,
                    value: be_value(bytes@.subrange(12, 14)) as u128,
                },
            ),
    {
        if bytes.len() != SERVER_GREETING_SIZE {
            return Err(
                DecodeError::LengthMismatch { expected: SERVER_GREETING_SIZE, actual: bytes.len() },
            );
        }
        let n = read_be(bytes, 12, 2);
        proof {
            crate::bytes::lemma_be_value_bound(bytes@.subrange(12, 14));
            reveal_with_fuel(crate::bytes::pow256, 3);
        }
        let mode = match ServerGreetingMode::from_u16(n as u16) {
            Some(m) => m,
            None => {
                return Err(DecodeError::UnknownEnumValue { field: 1, value: n });
            },
        };
        let unused: [u8; 12] = read_array(bytes, 0);
        let challenge: [u8; 16] = read_array(bytes, 14);
        let salt: [u8; 16] = read_array(bytes, 30);
        let count = read_be(bytes, 46, 16);
        let mbz: [u8; 12] = read_array(bytes, 62);
        let f = ServerGreetingFrame { unused, mode, challenge, salt, count, mbz };
        proof {
            crate::bytes::lemma_be_bytes_of_value(bytes@.subrange(12, 14));
            crate::bytes::lemma_be_bytes_of_value(bytes@.subrange(46, 62));
            assert(f.spec_bytes() =~= bytes@);
        }
        Ok(f)
    }
}

impl ServerGreetingFrame {
    /// The frame as a record of the greeting layout.
    pub open spec fn spec_record(&self) -> Seq<ValueView> {
        seq![
            ValueView::Bytes(self.unused@),
            ValueView::Variant(self.mode.spec_index()),
            ValueView::Bytes(self.challenge@),
            ValueView::Bytes(self.salt@),
            ValueView::Int(self.count as nat),
            ValueView::Bytes(self.mbz@),
        ]
    }

    /// The frame as a record of the greeting layout.
    pub fn to_record(&self) -> (r: Vec<FieldValue>)
        ensures
            record_view(r@) == self.spec_record(),
    {
        let mut r: Vec<FieldValue> = Vec::new();
        r.push(FieldValue::Bytes(copy_range(self.unused.as_slice(), 0, 12)));
        r.push(FieldValue::Variant(self.mode.index()));
        r.push(FieldValue::Bytes(copy_range(self.challenge.as_slice(), 0, 16)));
        r.push(FieldValue::Bytes(copy_range(self.salt.as_slice(), 0, 16)));
        r.push(FieldValue::Int(self.count));
        r.push(FieldValue::Bytes(copy_range(self.mbz.as_slice(), 0, 12)));
        assert(self.unused@.subrange(0, 12) =~= self.unused@);
        assert(self.challenge@.subrange(0, 16) =~= self.challenge@);
        assert(self.salt@.subrange(0, 16) =~= self.salt@);
        assert(self.mbz@.subrange(0, 12) =~= self.mbz@);
        assert(record_view(r@) =~= self.spec_record());
        r
    }

    /// The greeting layout, built from its classified fields.
    pub fn layout() -> (r: ByteMeStruct)
        ensures
            r.wf(),
            r.layout() == greeting_fields(),
            r.size == SERVER_GREETING_SIZE,
    {
        let mut fields: Vec<ByteMeField> = Vec::new();
        fields.push(ByteMeField { name: "unused".to_owned(), width: 12, kind: FieldKind::ByteArray });
        let mut values: Vec<u128> = Vec::new();
        values.push(0);
        values.push(1);
        values.push(2);
        values.push(4);
        fields.push(
            ByteMeField {
                name: "mode".to_owned(),
                width: 2,
                kind: FieldKind::EnumMapped {
                    enum_type: "ServerGreetingMode".to_owned(),
                    repr: UInt::U16,
                    values,
                },
            },
        );
        fields.push(ByteMeField { name: "challenge".to_owned(), width: 16, kind: FieldKind::ByteArray });
        fields.push(ByteMeField { name: "salt".to_owned(), width: 16, kind: FieldKind::ByteArray });
        fields.push(
            ByteMeField { name: "count".to_owned(), width: 16, kind: FieldKind::Integer(UInt::U128) },
        );
        fields.push(ByteMeField { name: "mbz".to_owned(), width: 12, kind: FieldKind::ByteArray });
        let r = ByteMeStruct { name: "ServerGreetingFrame".to_owned(), fields, size: SERVER_GREETING_SIZE };
        proof {
            assert(values@ =~= mode_values());
            assert(r.layout() =~= greeting_fields());
            lemma_greeting_fields_wf();
        }
        r
    }
}

proof fn lemma_greeting_fields_wf()
    ensures
        forall|i: int| 0 <= i < greeting_fields().len() ==> crate::schema::field_wf(#[trigger] greeting_fields()[i]),
        total_width(greeting_fields()) == SERVER_GREETING_SIZE,
        crate::schema::names_distinct(greeting_fields()),
{
    reveal_with_fuel(crate::bytes::pow256, 3);
    let fs = greeting_fields();
    assert(crate::schema::field_wf(fs[1]));
    reveal_strlit("unused");
    reveal_strlit("mode");
    reveal_strlit("challenge");
    reveal_strlit("salt");
    reveal_strlit("count");
    reveal_strlit("mbz");
    assert(fs[1].name[0] != fs[3].name[0]);
    assert(fs[0].name.len() == 6 && fs[1].name.len() == 4 && fs[2].name.len() == 9);
    assert(fs[3].name.len() == 4 && fs[4].name.len() == 5 && fs[5].name.len() == 3);
    reveal_with_fuel(total_width, 7);
    assert(fs.drop_last().drop_last().drop_last().drop_last().drop_last().drop_last() =~= Seq::<FieldView>::empty());
}

/// The frame's wire bytes are the greeting layout's encoding of the frame as a
/// record.
pub proof fn lemma_frame_encoding_is_layout_encoding(f: ServerGreetingFrame)
    ensures
        encode_record(greeting_fields(), f.spec_record()) == f.spec_bytes(),
{
    let fs = greeting_fields();
    let vs = f.spec_record();
    reveal_with_fuel(encode_record, 7);
    assert(mode_values()[f.mode.spec_index() as int] as nat == f.mode.spec_value());
    assert(fs.take(0) =~= Seq::<FieldView>::empty());
    assert(fs.take(6) =~= fs);
    assert(vs.take(6) =~= vs);
    assert(fs.take(6).drop_last() =~= fs.take(5));
    assert(fs.take(5).drop_last() =~= fs.take(4));
    assert(fs.take(4).drop_last() =~= fs.take(3));
    assert(fs.take(3).drop_last() =~= fs.take(2));
    assert(fs.take(2).drop_last() =~= fs.take(1));
    assert(fs.take(1).drop_last() =~= fs.take(0));
    assert(vs.take(6).take(5) =~= vs.take(5));
    assert(vs.take(5).take(4) =~= vs.take(4));
    assert(vs.take(4).take(3) =~= vs.take(3));
    assert(vs.take(3).take(2) =~= vs.take(2));
    assert(vs.take(2).take(1) =~= vs.take(1));
    assert(encode_record(fs, vs) =~= f.spec_bytes());
}

/// Distinct frames have distinct wire forms, so decoding the wire form of a
/// frame gives that frame back.
pub proof fn lemma_frame_round_trip(a: ServerGreetingFrame, b: ServerGreetingFrame)
    ensures
        ServerGreetingFrame::spec_decodable(a.spec_bytes()),
        a.spec_bytes() == b.spec_bytes() ==> a == b,
{
    let s = a.spec_bytes();
    let t = b.spec_bytes();
    lemma_be_bytes_len(a.mode.spec_value(), 2);
    lemma_be_bytes_len(a.count as nat, 16);
    lemma_be_bytes_len(b.mode.spec_value(), 2);
    lemma_be_bytes_len(b.count as nat, 16);
    reveal_with_fuel(crate::bytes::pow256, 3);
    lemma_pow256_16();
    lemma_value_of_be_bytes(a.mode.spec_value(), 2);
    lemma_value_of_be_bytes(b.mode.spec_value(), 2);
    lemma_value_of_be_bytes(a.count as nat, 16);
    lemma_value_of_be_bytes(b.count as nat, 16);
    assert(s.subrange(12, 14) =~= be_bytes(a.mode.spec_value(), 2));
    if s == t {
        assert(a.unused@ =~= s.subrange(0, 12));
        assert(b.unused@ =~= t.subrange(0, 12));
        assert(t.subrange(12, 14) =~= be_bytes(b.mode.spec_value(), 2));
        assert(a.challenge@ =~= s.subrange(14, 30));
        assert(b.challenge@ =~= t.subrange(14, 30));
        assert(a.salt@ =~= s.subrange(30, 46));
        assert(b.salt@ =~= t.subrange(30, 46));
        assert(s.subrange(46, 62) =~= be_bytes(a.count as nat, 16));
        assert(t.subrange(46, 62) =~= be_bytes(b.count as nat, 16));
        assert(a.mbz@ =~= s.subrange(62, 74));
        assert(b.mbz@ =~= t.subrange(62, 74));
        assert(a.unused =~= b.unused);
        assert(a.challenge =~= b.challenge);
        assert(a.salt =~= b.salt);
        assert(a.mbz =~= b.mbz);
    }
}

} // verus!
