//! Field declarations, their classification, and the validated layout.
use vstd::prelude::*;
use vstd::string::StrSliceExecFns;
use crate::bytes::pow256;

verus! {

/// The unsigned integer primitives a field or a width attribute may name.
#[derive(Clone, Copy, Debug, PartialEq, Eq, Structural)]
pub enum UInt {
    U8,
    U16,
    U32,
    U64,
    U128,
    Usize,
}

impl UInt {
    /// Bytes on the wire; the platform word is carried as eight bytes.
    pub open spec fn spec_width(self) -> nat {
        match self {
            UInt::U8 => 1,
            UInt::U16 => 2,
            UInt::U32 => 4,
            UInt::U64 => 8,
            UInt::U128 => 16,
            UInt::Usize => 8,
        }
    }

    pub fn width(&self) -> (r: usize)
        ensures
            r == self.spec_width(),
    {
        match self {
            UInt::U8 => 1,
            UInt::U16 => 2,
            UInt::U32 => 4,
            UInt::U64 => 8,
            UInt::U128 => 16,
            UInt::Usize => 8,
        }
    }
}

/// The primitive that a type name denotes, if it is one of the recognised ones.
pub open spec fn uint_named(s: Seq<char>) -> Option<UInt> {
    if s == "u8"@ {
        Some(UInt::U8)
    } else if s == "u16"@ {
        Some(UInt::U16)
    } else if s == "u32"@ {
        Some(UInt::U32)
    } else if s == "u64"@ {
        Some(UInt::U64)
    } else if s == "u128"@ {
        Some(UInt::U128)
    } else if s == "usize"@ {
        Some(UInt::Usize)
    } else {
        None
    }
}

fn str_eq(a: &str, b: &str) -> (r: bool)
    ensures
        r == (a@ == b@),
{
    let n = a.unicode_len();
    if n != b.unicode_len() {
        return false;
    }
    let mut i: usize = 0;
    while i < n
        invariant
            i <= n,
            n == a@.len(),
            n == b@.len(),
            forall|j: int| 0 <= j < i ==> a@[j] == b@[j],
        decreases n - i,
    {
        if a.get_char(i) != b.get_char(i) {
            return false;
        }
        i = i + 1;
    }
    assert(a@ =~= b@);
    true
}

/// Recognises the name of an unsigned integer primitive.
pub fn uint_from_name(name: &str) -> (r: Option<UInt>)
    ensures
        r == uint_named(name@),
{
    if str_eq(name, "u8") {
        Some(UInt::U8)
    } else if str_eq(name, "u16") {
        Some(UInt::U16)
    } else if str_eq(name, "u32") {
        Some(UInt::U32)
    } else if str_eq(name, "u64") {
        Some(UInt::U64)
    } else if str_eq(name, "u128") {
        Some(UInt::U128)
    } else if str_eq(name, "usize") {
        Some(UInt::Usize)
    } else {
        None
    }
}

/// The declared type of a field, as written in the record definition.
#[derive(Clone, Debug)]
pub enum DeclaredType {
    /// A fixed-length array `[elem; len]`.
    Array { elem: String, len: usize },
    /// A type named by a path, such as `u32` or `Mode`.
    Path { path: String },
    /// Any other form of type (a tuple, a reference, a slice, ...).
    Other,
}

/// One field declaration of a record definition.
#[derive(Clone, Debug)]
pub struct FieldDecl {
    /// The field's name; `None` for a positional field.
    pub name: Option<String>,
    pub ty: DeclaredType,
    /// The arguments of the field's numeric-width attribute, if it has one.
    pub width_attr: Option<Vec<String>>,
    /// For a field of an enumeration: the numeric value of each variant, in
    /// variant order. Empty for other fields.
    pub variants: Vec<u128>,
}

/// A record definition: its name and its fields in declaration order.
#[derive(Clone, Debug)]
pub struct StructDecl {
    pub name: String,
    pub fields: Vec<FieldDecl>,
}

/// Why a single field declaration cannot be classified.
#[derive(Clone, Copy, Debug, PartialEq, Eq, Structural)]
pub enum FieldError {
    /// The field has no name.
    Unnamed,
    /// The numeric-width attribute does not have exactly one argument.
    AttributeArity,
    /// An array whose element type is not `u8`.
    ArrayElementType,
    /// A byte array of length zero: every field takes at least one byte.
    EmptyArray,
    /// Neither a byte array, an unsigned integer, nor an enumeration with a
    /// width attribute naming an unsigned integer.
    UnsupportedFieldType,
    /// Two variants of the enumeration share a numeric value.
    DuplicateEnumValue,
    /// A variant's numeric value does not fit in the attribute's width.
    EnumValueTooWide,
}

/// Why a record definition is rejected.
#[derive(Clone, Copy, Debug, PartialEq, Eq, Structural)]
pub enum SchemaError {
    /// The first field that cannot be classified, by position, and why.
    Field { index: usize, error: FieldError },
    /// The total size does not fit in the two-byte delimiter.
    SizeTooLarge,
    /// The first field whose name an earlier field already has, by position,
    /// and the position of that earlier field.
    DuplicateFieldName { index: usize, first: usize },
}

/// The largest record size the two-byte delimiter can carry.
pub const MAX_SIZE: usize = 65535;

/// How a classified field is carried on the wire.
#[derive(Clone, Debug)]
pub enum FieldKind {
    /// An unsigned integer of the given primitive type.
    Integer(UInt),
    /// A byte array copied verbatim.
    ByteArray,
    /// An enumeration carried as an unsigned integer of type `repr`; variant
    /// `i` is carried as `values[i]`.
    EnumMapped { enum_type: String, repr: UInt, values: Vec<u128> },
}

/// Mathematical model of a `FieldKind`.
pub enum KindView {
    Integer(UInt),
    ByteArray,
    EnumMapped { enum_type: Seq<char>, repr: UInt, values: Seq<u128> },
}

/// A classified field: its name, its width in bytes and its kind.
#[derive(Clone, Debug)]
pub struct ByteMeField {
    pub name: String,
    pub width: usize,
    pub kind: FieldKind,
}

/// Mathematical model of a `ByteMeField`.
pub struct FieldView {
    pub name: Seq<char>,
    pub width: nat,
    pub kind: KindView,
}

impl View for FieldKind {
    type V = KindView;

    open spec fn view(&self) -> KindView {
        match self {
            FieldKind::Integer(u) => KindView::Integer(*u),
            FieldKind::ByteArray => KindView::ByteArray,
            FieldKind::EnumMapped { enum_type, repr, values } => KindView::EnumMapped {
                enum_type: enum_type@,
                repr: *repr,
                values: values@,
            },
        }
    }
}

impl View for ByteMeField {
    type V = FieldView;

    open spec fn view(&self) -> FieldView {
        FieldView { name: self.name@, width: self.width as nat, kind: self.kind@ }
    }
}

/// No two entries are equal.
pub open spec fn distinct(s: Seq<u128>) -> bool {
    forall|i: int, j: int| 0 <= i < s.len() && 0 <= j < s.len() && i != j ==> s[i] != s[j]
}

/// Every entry fits in `w` bytes.
pub open spec fn all_fit(s: Seq<u128>, w: nat) -> bool {
    forall|i: int| 0 <= i < s.len() ==> (s[i] as nat) < pow256(w)
}

/// A classified field is consistent: it takes at least one byte, its width
/// is the one its kind implies, and an enumeration's numeric values are
/// distinct and fit that width.
pub open spec fn field_wf(f: FieldView) -> bool {
    f.width > 0 && match f.kind {
        KindView::Integer(u) => f.width == u.spec_width(),
        KindView::ByteArray => true,
        KindView::EnumMapped { repr, values, .. } => f.width == repr.spec_width() && distinct(
            values,
        ) && all_fit(values, f.width),
    }
}

/// The classification of one field declaration.
pub open spec fn classify(d: FieldDecl) -> Result<FieldView, FieldError> {
    match d.name {
        None => Err(FieldError::Unnamed),
        Some(name) => {
            if d.width_attr is Some && d.width_attr->0@.len() != 1 {
                Err(FieldError::AttributeArity)
            } else {
                match d.ty {
                    DeclaredType::Array { elem, len } => {
                        if elem@ != "u8"@ {
                            Err(FieldError::ArrayElementType)
                        } else if len == 0 {
                            Err(FieldError::EmptyArray)
                        } else {
                            Ok(FieldView { name: name@, width: len as nat, kind: KindView::ByteArray })
                        }
                    },
                    DeclaredType::Path { path } => {
                        if uint_named(path@) is Some {
                            let u = uint_named(path@)->0;
                            Ok(FieldView { name: name@, width: u.spec_width(), kind: KindView::Integer(u) })
                        } else if d.width_attr is Some {
                            let repr = uint_named(d.width_attr->0@[0]@);
                            if repr is None {
                                Err(FieldError::UnsupportedFieldType)
                            } else if !distinct(d.variants@) {
                                Err(FieldError::DuplicateEnumValue)
                            } else if !all_fit(d.variants@, (repr->0).spec_width()) {
                                Err(FieldError::EnumValueTooWide)
                            } else {
                                Ok(
                                    FieldView {
                                        name: name@,
                                        width: (repr->0).spec_width(),
                                        kind: KindView::EnumMapped {
                                            enum_type: path@,
                                            repr: repr->0,
                                            values: d.variants@,
                                        },
                                    },
                                )
                            }
                        } else {
                            Err(FieldError::UnsupportedFieldType)
                        }
                    },
                    DeclaredType::Other => Err(FieldError::UnsupportedFieldType),
                }
            }
        },
    }
}

/// Sum of the widths of `fs`.
pub open spec fn total_width(fs: Seq<FieldView>) -> nat
    decreases fs.len(),
{
    if fs.len() == 0 {
        0
    } else {
        total_width(fs.drop_last()) + fs.last().width
    }
}

/// Where field `i` starts: the sum of the widths of the fields before it.
pub open spec fn offset(fs: Seq<FieldView>, i: int) -> nat {
    total_width(fs.take(i))
}

/// Whether `n` fits in `w` bytes.
pub fn fits_in(n: u128, w: usize) -> (r: bool)
    ensures
        r == ((n as nat) < pow256(w as nat)),
    decreases w,
{
    if w == 0 {
        n == 0
    } else {
        let r = fits_in(n / 256, w - 1);
        let ghost p = pow256((w - 1) as nat);
        assert(((n as nat) < 256 * p) == ((n as nat) / 256 < p)) by (nonlinear_arith);
        r
    }
}

fn check_distinct(s: &Vec<u128>) -> (r: bool)
    ensures
        r == distinct(s@),
{
    let mut i: usize = 0;
    while i < s.len()
        invariant
            i <= s@.len(),
            forall|a: int, b: int| 0 <= a < i && 0 <= b < s@.len() && a != b ==> s@[a] != s@[b],
        decreases s@.len() - i,
    {
        let mut j: usize = 0;
        while j < s.len()
            invariant
                i < s@.len(),
                j <= s@.len(),
                forall|b: int| 0 <= b < j && b != i ==> s@[i as int] != s@[b],
            decreases s@.len() - j,
        {
            if j != i && s[i] == s[j] {
                return false;
            }
            j = j + 1;
        }
        i = i + 1;
    }
    true
}

fn check_all_fit(s: &Vec<u128>, w: usize) -> (r: bool)
    ensures
        r == all_fit(s@, w as nat),
{
    let mut i: usize = 0;
    while i < s.len()
        invariant
            i <= s@.len(),
            forall|a: int| 0 <= a < i ==> (s@[a] as nat) < pow256(w as nat),
        decreases s@.len() - i,
    {
        if !fits_in(s[i], w) {
            return false;
        }
        i = i + 1;
    }
    true
}

fn copy_values(s: &Vec<u128>) -> (r: Vec<u128>)
    ensures
        r@ == s@,
{
    let mut r: Vec<u128> = Vec::new();
    let mut i: usize = 0;
    while i < s.len()
        invariant
            i <= s@.len(),
            r@ == s@.take(i as int),
        decreases s@.len() - i,
    {
        r.push(s[i]);
        i = i + 1;
        assert(r@ =~= s@.take(i as int));
    }
    assert(s@.take(s@.len() as int) =~= s@);
    r
}

impl ByteMeField {
    /// Classifies one field declaration.
    pub fn from_decl(d: &FieldDecl) -> (r: Result<ByteMeField, FieldError>)
        ensures
            match r {
                Ok(f) => classify(*d) == Ok::<FieldView, FieldError>(f@),
                Err(e) => classify(*d) == Err::<FieldView, FieldError>(e),
            },
    {
        let name = match &d.name {
            None => {
                return Err(FieldError::Unnamed);
            },
            Some(n) => n.clone(),
        };
        if let Some(args) = &d.width_attr {
            if args.len() != 1 {
                return Err(FieldError::AttributeArity);
            }
        }
        match &d.ty {
            DeclaredType::Array { elem, len } => {
                if !str_eq(elem.as_str(), "u8") {
                    Err(FieldError::ArrayElementType)
                } else if *len == 0 {
                    Err(FieldError::EmptyArray)
                } else {
                    Ok(ByteMeField { name, width: *len, kind: FieldKind::ByteArray })
                }
            },
            DeclaredType::Path { path } => {
                if let Some(u) = uint_from_name(path.as_str()) {
                    return Ok(ByteMeField { name, width: u.width(), kind: FieldKind::Integer(u) });
                }
                match &d.width_attr {
                    None => Err(FieldError::UnsupportedFieldType),
                    Some(args) => {
                        match uint_from_name(args[0].as_str()) {
                            None => Err(FieldError::UnsupportedFieldType),
                            Some(repr) => {
                                let width = repr.width();
                                if !check_distinct(&d.variants) {
                                    Err(FieldError::DuplicateEnumValue)
                                } else if !check_all_fit(&d.variants, width) {
                                    Err(FieldError::EnumValueTooWide)
                                } else {
                                    let values = copy_values(&d.variants);
                                    Ok(
                                        ByteMeField {
                                            name,
                                            width,
                                            kind: FieldKind::EnumMapped {
                                                enum_type: path.clone(),
                                                repr,
                                                values,
                                            },
                                        },
                                    )
                                }
                            },
                        }
                    },
                }
            },
            DeclaredType::Other => Err(FieldError::UnsupportedFieldType),
        }
    }
}

/// A record definition is rejected as soon as one of its fields cannot be
/// classified; among those: an unnamed field, an array whose element type is
/// not `u8`, an array of length zero, and a field whose width attribute has
/// more than one argument.
pub proof fn lemma_rejections(ds: Seq<FieldDecl>, i: int)
    requires
        0 <= i < ds.len(),
    ensures
        ds[i].name is None ==> classify(ds[i]) == Err::<FieldView, FieldError>(FieldError::Unnamed),
        ds[i].name is Some && ds[i].width_attr is Some && ds[i].width_attr->0@.len() > 1
            ==> classify(ds[i]) == Err::<FieldView, FieldError>(FieldError::AttributeArity),
        ds[i].name is Some && (ds[i].width_attr is None || ds[i].width_attr->0@.len() == 1)
            && ds[i].ty is Array
            && ds[i].ty->Array_elem@ != "u8"@ ==> classify(ds[i]) == Err::<FieldView, FieldError>(
            FieldError::ArrayElementType,
        ),
        ds[i].name is Some && (ds[i].width_attr is None || ds[i].width_attr->0@.len() == 1)
            && ds[i].ty is Array && ds[i].ty->Array_len == 0 ==> classify(ds[i]) is Err,
        classify(ds[i]) is Err ==> !all_classify(ds),
{
}

/// The numeric values of an enumeration's variants: an explicit value where
/// one is given, else one more than the variant before, starting at zero.
pub open spec fn variant_values(explicit: Seq<Option<u128>>) -> Seq<int>
    decreases explicit.len(),
{
    if explicit.len() == 0 {
        Seq::empty()
    } else {
        let before = variant_values(explicit.drop_last());
        let v = match explicit.last() {
            Some(n) => n as int,
            None => if before.len() == 0 {
                0
            } else {
                before.last() + 1
            },
        };
        before.push(v)
    }
}

proof fn lemma_variant_values_len(explicit: Seq<Option<u128>>)
    ensures
        variant_values(explicit).len() == explicit.len(),
    decreases explicit.len(),
{
    if explicit.len() > 0 {
        lemma_variant_values_len(explicit.drop_last());
    }
}

/// Numbers the variants of an enumeration; `None` where an implicit value
/// would exceed `u128::MAX`.
pub fn enum_values(explicit: &Vec<Option<u128>>) -> (r: Option<Vec<u128>>)
    ensures
        r is Some <==> forall|i: int|
            0 <= i < explicit@.len() ==> #[trigger] variant_values(explicit@)[i] <= u128::MAX,
        r matches Some(v) ==> v@.len() == explicit@.len() && forall|i: int|
            0 <= i < explicit@.len() ==> v@[i] as int == #[trigger] variant_values(explicit@)[i],
{
    let mut out: Vec<u128> = Vec::new();
    let mut i: usize = 0;
    while i < explicit.len()
        invariant
            i <= explicit@.len(),
            out@.len() == i,
            variant_values(explicit@.take(i as int)).len() == i,
            forall|k: int| 0 <= k < i ==> out@[k] as int == #[trigger] variant_values(explicit@.take(i as int))[k],
        decreases explicit@.len() - i,
    {
        let ghost before = variant_values(explicit@.take(i as int));
        let ghost after = variant_values(explicit@.take(i + 1));
        assert(explicit@.take(i + 1).drop_last() =~= explicit@.take(i as int));
        assert(after == before.push(after.last()));
        let v: u128 = match explicit[i] {
            Some(n) => n,
            None => if i == 0 {
                0
            } else {
                if out[i - 1] == u128::MAX {
                    proof {
                        lemma_variant_values_len(explicit@);
                        assert forall|k: int| 0 <= k <= i implies #[trigger] variant_values(explicit@)[k]
                            == after[k] by {
                            lemma_variant_values_prefix(explicit@, i + 1, k);
                        }
                    }
                    return None;
                }
                out[i - 1] + 1
            },
        };
        out.push(v);
        i = i + 1;
    }
    proof {
        assert(explicit@.take(i as int) =~= explicit@);
    }
    Some(out)
}

/// A variant's value depends only on the variants up to it.
proof fn lemma_variant_values_prefix(explicit: Seq<Option<u128>>, n: int, k: int)
    requires
        0 <= k < n <= explicit.len(),
    ensures
        variant_values(explicit)[k] == variant_values(explicit.take(n))[k],
    decreases explicit.len(),
{
    lemma_variant_values_len(explicit);
    lemma_variant_values_len(explicit.take(n));
    if n < explicit.len() {
        lemma_variant_values_prefix(explicit.drop_last(), n, k);
        assert(explicit.drop_last().take(n) =~= explicit.take(n));
        lemma_variant_values_len(explicit.drop_last());
    } else {
        assert(explicit.take(n) =~= explicit);
    }
}

/// The classified fields of `ds`, meaningful where every one classifies.
pub open spec fn classified(ds: Seq<FieldDecl>) -> Seq<FieldView> {
    Seq::new(ds.len(), |i: int| classify(ds[i])->Ok_0)
}

/// Every declaration of `ds` classifies.
pub open spec fn all_classify(ds: Seq<FieldDecl>) -> bool {
    forall|i: int| 0 <= i < ds.len() ==> classify(#[trigger] ds[i]) is Ok
}

/// No two fields of `fs` share a name.
pub open spec fn names_distinct(fs: Seq<FieldView>) -> bool {
    forall|i: int, j: int| 0 <= i < j < fs.len() ==> fs[i].name != fs[j].name
}

/// The position of a field of `fields` named `name`, if there is one.
fn find_name(fields: &Vec<ByteMeField>, name: &String) -> (r: Option<usize>)
    ensures
        r matches Some(j) ==> j < fields@.len() && views(fields@)[j as int].name == name@,
        r is None ==> forall|j: int| 0 <= j < fields@.len() ==> views(fields@)[j].name != name@,
{
    let mut j: usize = 0;
    while j < fields.len()
        invariant
            j <= fields@.len(),
            forall|k: int| 0 <= k < j ==> views(fields@)[k].name != name@,
        decreases fields@.len() - j,
    {
        if fields[j].name == *name {
            return Some(j);
        }
        j = j + 1;
    }
    None
}

/// The models of a sequence of classified fields.
pub open spec fn views(fs: Seq<ByteMeField>) -> Seq<FieldView> {
    fs.map_values(|f: ByteMeField| f@)
}

/// A validated record layout: a name, classified fields in declaration
/// order, and the total size in bytes.
#[derive(Clone, Debug)]
pub struct ByteMeStruct {
    pub name: String,
    pub fields: Vec<ByteMeField>,
    pub size: usize,
}

impl ByteMeStruct {
    /// The fields' models, in wire order.
    pub open spec fn layout(&self) -> Seq<FieldView> {
        views(self.fields@)
    }

    /// Every field is consistent, no two fields share a name, and `size` is
    /// the sum of the widths and fits in the delimiter.
    pub open spec fn wf(&self) -> bool {
        &&& forall|i: int| 0 <= i < self.fields@.len() ==> field_wf(#[trigger] self.layout()[i])
        &&& names_distinct(self.layout())
        &&& self.size == total_width(self.layout())
        &&& self.size <= MAX_SIZE
    }

    /// Classifies every field of `decl` in order and lays them out back to back.
    /// Fails on the first field that cannot be classified or whose name an
    /// earlier field has, else when the total size does not fit in the
    /// delimiter.
    pub fn parse(decl: &StructDecl) -> (r: Result<ByteMeStruct, SchemaError>)
        ensures
            r is Ok <==> all_classify(decl.fields@) && names_distinct(classified(decl.fields@))
                && total_width(classified(decl.fields@)) <= MAX_SIZE,
            r matches Ok(s) ==> s.wf() && s.name@ == decl.name@ && s.layout() == classified(
                decl.fields@,
            ),
            r matches Err(SchemaError::Field { index, error }) ==> index < decl.fields@.len()
                && classify(decl.fields@[index as int]) == Err::<FieldView, FieldError>(error)
                && all_classify(decl.fields@.take(index as int))
                && names_distinct(classified(decl.fields@.take(index as int))),
            r matches Err(SchemaError::DuplicateFieldName { index, first }) ==> first < index
                < decl.fields@.len() && all_classify(decl.fields@.take(index + 1))
                && names_distinct(classified(decl.fields@.take(index as int)))
                && classify(decl.fields@[first as int])->Ok_0.name == classify(
                decl.fields@[index as int],
            )->Ok_0.name,
            r matches Err(SchemaError::SizeTooLarge) ==> all_classify(decl.fields@)
                && names_distinct(classified(decl.fields@))
                && total_width(classified(decl.fields@)) > MAX_SIZE,
    {
        let ghost ds = decl.fields@;
        let mut fields: Vec<ByteMeField> = Vec::new();
        let mut size: usize = 0;
        let mut too_large = false;
        let mut i: usize = 0;
        while i < decl.fields.len()
            invariant
                ds == decl.fields@,
                i <= ds.len(),
                all_classify(ds.take(i as int)),
                names_distinct(classified(ds.take(i as int))),
                fields@.len() == i,
                views(fields@) == classified(ds.take(i as int)),
                forall|k: int| 0 <= k < i ==> field_wf(#[trigger] classified(ds.take(i as int))[k]),
                !too_large ==> size == total_width(classified(ds.take(i as int))) && size <= MAX_SIZE,
                too_large ==> total_width(classified(ds.take(i as int))) > MAX_SIZE,
            decreases ds.len() - i,
        {
            let f = match ByteMeField::from_decl(&decl.fields[i]) {
                Ok(f) => f,
                Err(error) => {
                    return Err(SchemaError::Field { index: i, error });
                },
            };
            let ghost before = classified(ds.take(i as int));
            let ghost after = classified(ds.take(i + 1));
            assert(after.drop_last() =~= before);
            assert(after.last() == f@);
            assert(all_classify(ds.take(i + 1))) by {
                assert forall|k: int| 0 <= k < i + 1 implies classify(#[trigger] ds.take(i + 1)[k]) is Ok by {
                    if k < i {
                        assert(ds.take(i + 1)[k] == ds.take(i as int)[k]);
                    }
                }
            }
            match find_name(&fields, &f.name) {
                Some(first) => {
                    assert(before[first as int] == classify(ds[first as int])->Ok_0);
                    assert(classified(ds)[first as int] == classify(ds[first as int])->Ok_0);
                    assert(classified(ds)[i as int] == f@);
                    assert(!names_distinct(classified(ds)));
                    return Err(SchemaError::DuplicateFieldName { index: i, first });
                },
                None => {},
            }
            if !too_large {
                if f.width > MAX_SIZE - size {
                    too_large = true;
                } else {
                    size = size + f.width;
                }
            }
            let ghost fv = f@;
            let ghost old_fields = fields@;
            fields.push(f);
            i = i + 1;
            assert(views(fields@) =~= views(old_fields).push(fv));
            assert(after =~= before.push(fv));
        }
        assert(ds.take(i as int) =~= ds);
        if too_large {
            return Err(SchemaError::SizeTooLarge);
        }
        Ok(ByteMeStruct { name: decl.name.clone(), fields, size })
    }

    /// Total wire size in bytes.
    pub fn size(&self) -> (r: usize)
        ensures
            r == self.size,
    {
        self.size
    }
}

} // verus!
