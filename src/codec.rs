//! Encoding records into bytes and decoding them back through a layout.
use vstd::prelude::*;
use crate::bytes::{
    be_bytes, be_value, lemma_be_bytes_len, lemma_value_of_be_bytes, push_be, read_be, push_all, copy_range,
};
use crate::schema::{
    distinct, field_wf, fits_in, offset, total_width, ByteMeStruct, FieldKind, FieldView,
    KindView,
};

verus! {

/// The value of one field of a record.
#[derive(Clone, Debug, PartialEq, Eq)]
pub enum FieldValue {
    /// The value of an unsigned integer field.
    Int(u128),
    /// The contents of a byte array field.
    Bytes(Vec<u8>),
    /// The position of the variant held by an enumeration field.
    Variant(usize),
}

/// Mathematical model of a `FieldValue`.
pub enum ValueView {
    Int(nat),
    Bytes(Seq<u8>),
    Variant(nat),
}

impl View for FieldValue {
    type V = ValueView;

    open spec fn view(&self) -> ValueView {
        match self {
            FieldValue::Int(n) => ValueView::Int(*n as nat),
            FieldValue::Bytes(b) => ValueView::Bytes(b@),
            FieldValue::Variant(i) => ValueView::Variant(*i as nat),
        }
    }
}

/// The models of the values of a record.
pub open spec fn record_view(r: Seq<FieldValue>) -> Seq<ValueView> {
    r.map_values(|v: FieldValue| v@)
}

/// Why a buffer cannot be decoded.
#[derive(Clone, Copy, Debug, PartialEq, Eq, Structural)]
pub enum DecodeError {
    /// The buffer's length is not the record size.
    LengthMismatch { expected: usize, actual: usize },
    /// The first enumeration field whose numeric value is no variant's.
    UnknownEnumValue { field: usize, value: u128 },
}

/// `v` is a value of the kind of field `f`, and fits it.
pub open spec fn value_fits(f: FieldView, v: ValueView) -> bool {
    match v {
        ValueView::Int(n) => f.kind is Integer && n < crate::bytes::pow256(f.width),
        ValueView::Bytes(b) => f.kind is ByteArray && b.len() == f.width,
        ValueView::Variant(i) => f.kind is EnumMapped && i < f.kind->EnumMapped_values.len(),
    }
}

/// `vs` holds one fitting value for each field of `fs`.
pub open spec fn record_fits(fs: Seq<FieldView>, vs: Seq<ValueView>) -> bool {
    &&& fs.len() == vs.len()
    &&& forall|i: int| 0 <= i < fs.len() ==> value_fits(fs[i], #[trigger] vs[i])
}

/// The bytes of one field: an integer big-endian in the field's width, an
/// array verbatim, a variant as its numeric value in the field's width.
pub open spec fn encode_field(f: FieldView, v: ValueView) -> Seq<u8> {
    match v {
        ValueView::Int(n) => be_bytes(n, f.width),
        ValueView::Bytes(b) => b,
        ValueView::Variant(i) => be_bytes(f.kind->EnumMapped_values[i as int] as nat, f.width),
    }
}

/// The encoding of a record: its fields' bytes, concatenated in order.
pub open spec fn encode_record(fs: Seq<FieldView>, vs: Seq<ValueView>) -> Seq<u8>
    decreases fs.len(),
{
    if fs.len() == 0 {
        Seq::empty()
    } else {
        encode_record(fs.drop_last(), vs.take(fs.len() - 1)) + encode_field(
            fs.last(),
            vs[fs.len() - 1],
        )
    }
}

/// The bytes that field `i` occupies in `bytes`.
pub open spec fn chunk(fs: Seq<FieldView>, bytes: Seq<u8>, i: int) -> Seq<u8> {
    bytes.subrange(offset(fs, i) as int, (offset(fs, i) + fs[i].width) as int)
}

/// Whether some variant of `values` has numeric value `n`.
pub open spec fn has_variant(values: Seq<u128>, n: nat) -> bool {
    exists|j: int| 0 <= j < values.len() && values[j] as nat == n
}

/// The field value that the bytes `c` of field `f` stand for; `None` for a
/// numeric value that is no variant's.
pub open spec fn decode_field(f: FieldView, c: Seq<u8>) -> Option<ValueView> {
    match f.kind {
        KindView::Integer(_) => Some(ValueView::Int(be_value(c))),
        KindView::ByteArray => Some(ValueView::Bytes(c)),
        KindView::EnumMapped { values, .. } => {
            if has_variant(values, be_value(c)) {
                Some(
                    ValueView::Variant(
                        (choose|j: int| 0 <= j < values.len() && values[j] as nat == be_value(c))
                            as nat,
                    ),
                )
            } else {
                None
            }
        },
    }
}

/// Every field of `bytes` decodes.
pub open spec fn decodes(fs: Seq<FieldView>, bytes: Seq<u8>) -> bool {
    forall|i: int| 0 <= i < fs.len() ==> (#[trigger] decode_field(fs[i], chunk(fs, bytes, i))) is Some
}

/// The record that `bytes` stands for, where every field decodes.
pub open spec fn decoded(fs: Seq<FieldView>, bytes: Seq<u8>) -> Seq<ValueView> {
    Seq::new(fs.len(), |i: int| decode_field(fs[i], chunk(fs, bytes, i))->0)
}

pub proof fn lemma_offset_step(fs: Seq<FieldView>, i: int)
    requires
        0 <= i < fs.len(),
    ensures
        offset(fs, i + 1) == offset(fs, i) + fs[i].width,
{
    assert(fs.take(i + 1).drop_last() =~= fs.take(i));
}

pub proof fn lemma_offset_bound(fs: Seq<FieldView>, i: int)
    requires
        0 <= i <= fs.len(),
    ensures
        offset(fs, i) <= total_width(fs),
    decreases fs.len() - i,
{
    if i < fs.len() {
        lemma_offset_step(fs, i);
        lemma_offset_bound(fs, i + 1);
    } else {
        assert(fs.take(i) =~= fs);
    }
}

fn find_variant(values: &Vec<u128>, n: u128) -> (r: Option<usize>)
    ensures
        r matches Some(j) ==> j < values@.len() && values@[j as int] == n,
        r is None ==> !has_variant(values@, n as nat),
{
    let mut j: usize = 0;
    while j < values.len()
        invariant
            j <= values@.len(),
            forall|k: int| 0 <= k < j ==> values@[k] != n,
        decreases values@.len() - j,
    {
        if values[j] == n {
            return Some(j);
        }
        j = j + 1;
    }
    None
}

/// The variant found by a search is the one `decode_field` names, since the
/// numeric values are distinct.
proof fn lemma_variant_unique(values: Seq<u128>, j: int, n: nat)
    requires
        distinct(values),
        0 <= j < values.len(),
        values[j] as nat == n,
    ensures
        has_variant(values, n),
        (choose|k: int| 0 <= k < values.len() && values[k] as nat == n) == j,
{
    assert(has_variant(values, n));
}

proof fn lemma_encode_step(fs: Seq<FieldView>, vs: Seq<ValueView>, i: int)
    requires
        0 <= i < fs.len(),
        i < vs.len(),
    ensures
        encode_record(fs.take(i + 1), vs.take(i + 1)) == encode_record(fs.take(i), vs.take(i))
            + encode_field(fs[i], vs[i]),
{
    assert(fs.take(i + 1).drop_last() =~= fs.take(i));
    assert(vs.take(i + 1).take(i) =~= vs.take(i));
}

proof fn lemma_encode_field_len(f: FieldView, v: ValueView)
    requires
        value_fits(f, v),
    ensures
        encode_field(f, v).len() == f.width,
{
    match v {
        ValueView::Int(n) => lemma_be_bytes_len(n, f.width),
        ValueView::Bytes(_) => {},
        ValueView::Variant(i) => lemma_be_bytes_len(
            f.kind->EnumMapped_values[i as int] as nat,
            f.width,
        ),
    }
}

proof fn lemma_decode_field_of_encoding(f: FieldView, v: ValueView)
    requires
        field_wf(f),
        value_fits(f, v),
    ensures
        decode_field(f, encode_field(f, v)) == Some(v),
{
    match v {
        ValueView::Int(n) => lemma_value_of_be_bytes(n, f.width),
        ValueView::Bytes(_) => {},
        ValueView::Variant(i) => {
            let values = f.kind->EnumMapped_values;
            lemma_value_of_be_bytes(values[i as int] as nat, f.width);
            lemma_variant_unique(values, i as int, values[i as int] as nat);
        },
    }
}

/// In the encoding of a fitting record, each field's bytes are that field's
/// encoding, and the whole is as long as the fields' widths together.
proof fn lemma_chunks_of_encoding(fs: Seq<FieldView>, vs: Seq<ValueView>)
    requires
        record_fits(fs, vs),
    ensures
        encode_record(fs, vs).len() == total_width(fs),
        forall|i: int|
            0 <= i < fs.len() ==> #[trigger] chunk(fs, encode_record(fs, vs), i) == encode_field(
                fs[i],
                vs[i],
            ),
    decreases fs.len(),
{
    let n = fs.len() as int;
    if n > 0 {
        let p = fs.drop_last();
        let q = vs.take(n - 1);
        assert forall|i: int| 0 <= i < p.len() implies value_fits(p[i], #[trigger] q[i]) by {
            assert(value_fits(fs[i], vs[i]));
        }
        lemma_chunks_of_encoding(p, q);
        let a = encode_record(p, q);
        let b = encode_field(fs.last(), vs[n - 1]);
        assert(value_fits(fs[n - 1], vs[n - 1]));
        lemma_encode_field_len(fs.last(), vs[n - 1]);
        assert(encode_record(fs, vs) == a + b);
        assert forall|i: int| 0 <= i < fs.len() implies #[trigger] chunk(
            fs,
            encode_record(fs, vs),
            i,
        ) == encode_field(fs[i], vs[i]) by {
            if i < n - 1 {
                assert(fs.take(i) =~= p.take(i));
                lemma_offset_step(p, i);
                lemma_offset_bound(p, i + 1);
                assert(chunk(fs, a + b, i) =~= chunk(p, a, i));
            } else {
                assert(fs.take(i) =~= p);
                assert(chunk(fs, a + b, i) =~= b);
            }
        }
    }
}

/// Decoding the encoding of a record gives the record back: for a valid
/// layout and a record with one fitting value per field (every enumeration
/// field holding a defined variant), the encoding is `size` bytes long, every
/// field of it decodes, and the decoded record is the one encoded.
pub proof fn lemma_round_trip(s: &ByteMeStruct, record: Seq<ValueView>)
    requires
        s.wf(),
        record_fits(s.layout(), record),
    ensures
        encode_record(s.layout(), record).len() == s.size,
        decodes(s.layout(), encode_record(s.layout(), record)),
        decoded(s.layout(), encode_record(s.layout(), record)) == record,
{
    let fs = s.layout();
    let e = encode_record(fs, record);
    lemma_chunks_of_encoding(fs, record);
    assert forall|i: int| 0 <= i < fs.len() implies decode_field(fs[i], chunk(fs, e, i))
        == Some(#[trigger] record[i]) by {
        assert(field_wf(fs[i]));
        assert(value_fits(fs[i], record[i]));
        lemma_decode_field_of_encoding(fs[i], record[i]);
    }
    assert(decoded(fs, e) =~= record);
}

/// A byte array survives encoding unchanged: its field's bytes in the encoding
/// are exactly the array, no longer and no shorter, and decoding gives it back.
pub proof fn lemma_array_fidelity(s: &ByteMeStruct, record: Seq<ValueView>, i: int)
    requires
        s.wf(),
        record_fits(s.layout(), record),
        0 <= i < record.len(),
        record[i] is Bytes,
    ensures
        chunk(s.layout(), encode_record(s.layout(), record), i) == record[i]->Bytes_0,
        decoded(s.layout(), encode_record(s.layout(), record))[i] == record[i],
{
    lemma_chunks_of_encoding(s.layout(), record);
    lemma_round_trip(s, record);
}

/// The numeric value of every variant of an enumeration field decodes to that
/// same variant.
pub proof fn lemma_enum_variant_decodes(f: FieldView, j: nat)
    requires
        field_wf(f),
        f.kind is EnumMapped,
        j < f.kind->EnumMapped_values.len(),
    ensures
        decode_field(f, encode_field(f, ValueView::Variant(j))) == Some(ValueView::Variant(j)),
{
    lemma_decode_field_of_encoding(f, ValueView::Variant(j));
}

/// A numeric value that is no variant's does not decode for an enumeration
/// field: no default variant is made up.
pub proof fn lemma_unknown_enum_value(f: FieldView, n: nat)
    requires
        field_wf(f),
        f.kind is EnumMapped,
        n < crate::bytes::pow256(f.width),
        !has_variant(f.kind->EnumMapped_values, n),
    ensures
        decode_field(f, be_bytes(n, f.width)) is None,
{
    lemma_value_of_be_bytes(n, f.width);
}

impl ByteMeStruct {
    /// Encodes `record` field by field in declaration order; `None` where the
    /// record does not hold one fitting value per field.
    pub fn encode(&self, record: &Vec<FieldValue>) -> (r: Option<Vec<u8>>)
        requires
            self.wf(),
        ensures
            r is Some <==> record_fits(self.layout(), record_view(record@)),
            r matches Some(b) ==> b@ == encode_record(self.layout(), record_view(record@))
                && b@.len() == self.size,
    {
        let ghost fs = self.layout();
        let ghost vs = record_view(record@);
        if record.len() != self.fields.len() {
            return None;
        }
        let mut out: Vec<u8> = Vec::new();
        let mut i: usize = 0;
        while i < self.fields.len()
            invariant
                self.wf(),
                fs == self.layout(),
                vs == record_view(record@),
                fs.len() == vs.len(),
                i <= fs.len(),
                forall|k: int| 0 <= k < i ==> value_fits(fs[k], #[trigger] vs[k]),
                out@ == encode_record(fs.take(i as int), vs.take(i as int)),
                out@.len() == offset(fs, i as int),
            decreases fs.len() - i,
        {
            let f = &self.fields[i];
            assert(fs[i as int] == f@);
            assert(vs[i as int] == record[i as int]@);
            assert(field_wf(fs[i as int]));
            proof {
                lemma_encode_step(fs, vs, i as int);
                lemma_offset_step(fs, i as int);
            }
            match (&f.kind, &record[i]) {
                (FieldKind::Integer(_), FieldValue::Int(n)) => {
                    if !fits_in(*n, f.width) {
                        return None;
                    }
                    proof {
                        lemma_be_bytes_len(*n as nat, f.width as nat);
                    }
                    push_be(&mut out, *n, f.width);
                },
                (FieldKind::ByteArray, FieldValue::Bytes(b)) => {
                    if b.len() != f.width {
                        return None;
                    }
                    push_all(&mut out, b.as_slice());
                },
                (FieldKind::EnumMapped { values, .. }, FieldValue::Variant(j)) => {
                    if *j >= values.len() {
                        return None;
                    }
                    proof {
                        lemma_be_bytes_len(values@[*j as int] as nat, f.width as nat);
                    }
                    push_be(&mut out, values[*j], f.width);
                },
                _ => {
                    return None;
                },
            }
            i = i + 1;
        }
        assert(fs.take(fs.len() as int) =~= fs);
        assert(vs.take(vs.len() as int) =~= vs);
        Some(out)
    }

    /// Decodes a buffer of exactly `size` bytes field by field in declaration
    /// order.
    pub fn decode(&self, bytes: &[u8]) -> (r: Result<Vec<FieldValue>, DecodeError>)
        requires
            self.wf(),
        ensures
            bytes@.len() != self.size ==> r == Err::<Vec<FieldValue>, DecodeError>(
                DecodeError::LengthMismatch { expected: self.size, actual: bytes@.len() as usize },
            ),
            bytes@.len() == self.size ==> (r is Ok <==> decodes(self.layout(), bytes@)),
            r matches Err(DecodeError::LengthMismatch { .. }) ==> bytes@.len() != self.size,
            r matches Ok(v) ==> record_view(v@) == decoded(self.layout(), bytes@),
            r matches Err(DecodeError::UnknownEnumValue { field, value }) ==> {
                &&& field < self.layout().len()
                &&& decode_field(self.layout()[field as int], chunk(self.layout(), bytes@, field as int)) is None
                &&& value as nat == be_value(chunk(self.layout(), bytes@, field as int))
                &&& forall|k: int| 0 <= k < field ==> (#[trigger] decode_field(self.layout()[k], chunk(self.layout(), bytes@, k))) is Some
            },
    {
        let ghost fs = self.layout();
        if bytes.len() != self.size {
            return Err(DecodeError::LengthMismatch { expected: self.size, actual: bytes.len() });
        }
        let mut out: Vec<FieldValue> = Vec::new();
        let mut pos: usize = 0;
        let mut i: usize = 0;
        while i < self.fields.len()
            invariant
                self.wf(),
                fs == self.layout(),
                bytes@.len() == self.size,
                i <= fs.len(),
                pos == offset(fs, i as int),
                out@.len() == i,
                forall|k: int| 0 <= k < i ==> (#[trigger] decode_field(fs[k], chunk(fs, bytes@, k))) is Some,
                forall|k: int| 0 <= k < i ==> #[trigger] out@[k]@ == decode_field(fs[k], chunk(fs, bytes@, k))->0,
            decreases fs.len() - i,
        {
            let f = &self.fields[i];
            assert(fs[i as int] == f@);
            assert(field_wf(fs[i as int]));
            proof {
                lemma_offset_step(fs, i as int);
                lemma_offset_bound(fs, i + 1);
            }
            let ghost c = chunk(fs, bytes@, i as int);
            let v = match &f.kind {
                FieldKind::Integer(_) => FieldValue::Int(read_be(bytes, pos, f.width)),
                FieldKind::ByteArray => FieldValue::Bytes(copy_range(bytes, pos, f.width)),
                FieldKind::EnumMapped { values, .. } => {
                    let n = read_be(bytes, pos, f.width);
                    match find_variant(values, n) {
                        Some(j) => {
                            proof {
                                lemma_variant_unique(values@, j as int, n as nat);
                            }
                            FieldValue::Variant(j)
                        },
                        None => {
                            return Err(DecodeError::UnknownEnumValue { field: i, value: n });
                        },
                    }
                },
            };
            assert(v@ == decode_field(fs[i as int], c)->0);
            out.push(v);
            pos = pos + f.width;
            i = i + 1;
        }
        assert(record_view(out@) =~= decoded(fs, bytes@));
        Ok(out)
    }

    /// The length-prefix frame header: `size` as two big-endian bytes.
    pub fn get_delimiter(&self) -> (r: Vec<u8>)
        requires
            self.wf(),
        ensures
            r@ == be_bytes(self.size as nat, 2),
            r@.len() == 2,
    {
        let mut r: Vec<u8> = Vec::new();
        push_be(&mut r, self.size as u128, 2);
        proof {
            lemma_be_bytes_len(self.size as nat, 2);
        }
        assert(r@ =~= be_bytes(self.size as nat, 2));
        r
    }
}

} // verus!
