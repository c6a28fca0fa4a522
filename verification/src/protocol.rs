//! Whether a type can be read and written, judged from its shape.
use vstd::prelude::*;

verus! {

/// What the protocol assertion reads of a type's shape.
pub struct ProtocolShape {
    /// What the type is made of.
    pub ty: ProtocolType,
    /// How the type is used.
    pub def: ProtocolDef,
    /// The size of the type in memory; `None` for unsized types.
    pub size: Option<usize>,
}

/// What a type is made of.
pub enum ProtocolType {
    /// `bool` or `str`.
    Primitive,
    /// An integer.
    Integer,
    /// A floating-point number.
    Float,
    /// `char`.
    Char,
    /// `!`.
    Never,
    /// `[T; N]`.
    Array(Box<ProtocolShape>),
    /// `[T]`.
    Slice(Box<ProtocolShape>),
    /// A struct with its fields.
    Struct(Vec<ProtocolField>),
    /// An enum with the fields of each variant.
    Enum(Vec<Vec<ProtocolField>>),
    /// A type whose contents are not described.
    Opaque,
    /// A union.
    Union,
    /// `&T` or `&mut T`.
    Reference,
    /// A raw or function pointer.
    OtherPointer,
}

/// How a type is used.
pub enum ProtocolDef {
    /// An array of the shape.
    Array(Box<ProtocolShape>),
    /// A slice of the shape.
    Slice(Box<ProtocolShape>),
    /// An optional value of the shape.
    Optional(Box<ProtocolShape>),
    /// No particular use.
    Undefined,
    /// Any other use.
    Other,
}

/// A field: its attributes and its shape.
pub struct ProtocolField {
    /// The field's arbitrary attributes, such as `var`.
    pub attributes: Vec<String>,
    /// The field's shape.
    pub shape: ProtocolShape,
}

/// Whether an attribute marks a field as variable-length.
pub open spec fn is_var(a: Seq<char>) -> bool {
    a == seq!['v', 'a', 'r']
}

/// Whether a field marked variable-length has a type that allows it: an
/// integer of 2, 4, 8 or 16 bytes; a field of another numeric type, or of a
/// numeric type without a size, cannot be marked.
pub open spec fn var_allowed(f: ProtocolField) -> bool {
    match f.shape.ty {
        ProtocolType::Integer => f.shape.size matches Some(n) && (n == 2 || n == 4 || n == 8 || n == 16),
        ProtocolType::Float => false,
        _ => true,
    }
}

/// Whether a field's attributes can be judged: no attribute marks it
/// variable-length where its type does not allow it.
pub open spec fn field_checkable(f: ProtocolField) -> bool {
    (exists|i: int| 0 <= i < f.attributes@.len() && #[trigger] is_var(f.attributes@[i]@)) ==> var_allowed(f)
}

/// Whether the protocol assertion can judge a shape: no union, no pointer but a
/// reference, and no field marked variable-length that cannot be.
pub open spec fn checkable(s: ProtocolShape) -> bool
    decreases s, 2int,
{
    match s.ty {
        ProtocolType::Union | ProtocolType::OtherPointer => false,
        ProtocolType::Array(t) | ProtocolType::Slice(t) => checkable(*t),
        ProtocolType::Struct(fields) => fields_checkable(fields@),
        ProtocolType::Enum(variants) => variants_checkable(variants@),
        ProtocolType::Opaque => match s.def {
            ProtocolDef::Array(t) | ProtocolDef::Slice(t) | ProtocolDef::Optional(t) => checkable(*t),
            _ => true,
        },
        _ => true,
    }
}

/// Whether every field can be judged.
pub open spec fn fields_checkable(fs: Seq<ProtocolField>) -> bool
    decreases fs, 1int,
{
    forall|i: int| 0 <= i < fs.len() ==> field_checkable(#[trigger] fs[i]) && checkable(fs[i].shape)
}

/// Whether every variant's fields can be judged.
pub open spec fn variants_checkable(vs: Seq<Vec<ProtocolField>>) -> bool
    decreases vs, 1int,
{
    forall|i: int| 0 <= i < vs.len() ==> fields_checkable(#[trigger] vs[i]@)
}

/// Whether a shape can be read and written: no `char` or `!` in it, and
/// every opaque type in it of a known use.
pub open spec fn shape_valid(s: ProtocolShape) -> bool
    decreases s, 2int,
{
    match s.ty {
        ProtocolType::Char | ProtocolType::Never => false,
        ProtocolType::Array(t) | ProtocolType::Slice(t) => shape_valid(*t),
        ProtocolType::Struct(fields) => fields_valid(fields@),
        ProtocolType::Enum(variants) => variants_valid(variants@),
        ProtocolType::Opaque => match s.def {
            ProtocolDef::Array(t) | ProtocolDef::Slice(t) | ProtocolDef::Optional(t) => shape_valid(*t),
            ProtocolDef::Undefined => false,
            ProtocolDef::Other => true,
        },
        _ => true,
    }
}

/// Whether every field's shape can be read and written.
pub open spec fn fields_valid(fs: Seq<ProtocolField>) -> bool
    decreases fs, 1int,
{
    forall|i: int| 0 <= i < fs.len() ==> shape_valid(#[trigger] fs[i].shape)
}

/// Whether every variant's fields can be read and written.
pub open spec fn variants_valid(vs: Seq<Vec<ProtocolField>>) -> bool
    decreases vs, 1int,
{
    forall|i: int| 0 <= i < vs.len() ==> fields_valid(#[trigger] vs[i]@)
}

/// Returns `true` if the given field can be read and written.
pub fn valid_field(field: &ProtocolField) -> (r: bool)
    requires
        field_checkable(*field),
        checkable(field.shape),
    ensures
        r == shape_valid(field.shape),
    decreases field.shape, 2int,
{
    valid_shape(&field.shape)
}

/// Returns `true` if the given shape can be read and written.
pub fn valid_shape(shape: &ProtocolShape) -> (r: bool)
    requires
        checkable(*shape),
    ensures
        r == shape_valid(*shape),
    decreases *shape, 1int,
{
    match &shape.ty {
        ProtocolType::Char | ProtocolType::Never => false,
        ProtocolType::Array(t) | ProtocolType::Slice(t) => valid_shape(t),
        ProtocolType::Struct(fields) => valid_fields(fields),
        ProtocolType::Enum(variants) => valid_variants(variants),
        ProtocolType::Opaque => match &shape.def {
            ProtocolDef::Array(t) | ProtocolDef::Slice(t) | ProtocolDef::Optional(t) => valid_shape(t),
            ProtocolDef::Undefined => false,
            ProtocolDef::Other => true,
        },
        _ => true,
    }
}

/// Returns `true` if every variant's fields can be read and written.
fn valid_variants(variants: &Vec<Vec<ProtocolField>>) -> (r: bool)
    requires
        variants_checkable(variants@),
    ensures
        r == variants_valid(variants@),
    decreases variants@, 1int,
{
    let mut index: usize = 0;
    while index < variants.len()
        invariant
            index <= variants@.len(),
            variants_checkable(variants@),
            forall|i: int| 0 <= i < index ==> fields_valid(#[trigger] variants@[i]@),
        decreases variants@.len() - index,
    {
        proof {
            assert(decreases_to!(variants@ => variants@[index as int]));
        }
        if !valid_fields(&variants[index]) {
            return false;
        }
        index += 1;
    }
    true
}

/// Returns `true` if every field can be read and written.
fn valid_fields(fields: &Vec<ProtocolField>) -> (r: bool)
    requires
        fields_checkable(fields@),
    ensures
        r == fields_valid(fields@),
    decreases fields@, 0int,
{
    let mut index: usize = 0;
    while index < fields.len()
        invariant
            index <= fields@.len(),
            fields_checkable(fields@),
            forall|i: int| 0 <= i < index ==> shape_valid(#[trigger] fields@[i].shape),
        decreases fields@.len() - index,
    {
        proof {
            assert(decreases_to!(fields@ => fields@[index as int]));
        }
        if !valid_field(&fields[index]) {
            return false;
        }
        index += 1;
    }
    true
}

// ---------------------------------------------------------------------------------------------

/// Whether `char` or `!` stands somewhere in a shape: in it, in the elements
/// of an array or slice, in a field of a struct or of an enum's variant, or
/// in what an opaque collection or option holds.
pub open spec fn mentions_char_or_never(s: ProtocolShape) -> bool
    decreases s, 2int,
{
    match s.ty {
        ProtocolType::Char | ProtocolType::Never => true,
        ProtocolType::Array(t) | ProtocolType::Slice(t) => mentions_char_or_never(*t),
        ProtocolType::Struct(fields) => fields_mention(fields@),
        ProtocolType::Enum(variants) => variants_mention(variants@),
        ProtocolType::Opaque => match s.def {
            ProtocolDef::Array(t) | ProtocolDef::Slice(t) | ProtocolDef::Optional(t) =>
                mentions_char_or_never(*t),
            _ => false,
        },
        _ => false,
    }
}

/// Whether `char` or `!` stands in one of the fields.
pub open spec fn fields_mention(fs: Seq<ProtocolField>) -> bool
    decreases fs, 1int,
{
    exists|i: int| 0 <= i < fs.len() && mentions_char_or_never(#[trigger] fs[i].shape)
}

/// Whether `char` or `!` stands in a field of one of the variants.
pub open spec fn variants_mention(vs: Seq<Vec<ProtocolField>>) -> bool
    decreases vs, 1int,
{
    exists|i: int| 0 <= i < vs.len() && fields_mention(#[trigger] vs[i]@)
}

/// A shape in which `char` or `!` stands anywhere cannot be read and
/// written, however deep it lies.
pub proof fn lemma_char_or_never_invalid(s: ProtocolShape)
    requires
        mentions_char_or_never(s),
    ensures
        !shape_valid(s),
    decreases s, 2int,
{
    match s.ty {
        ProtocolType::Array(t) | ProtocolType::Slice(t) => lemma_char_or_never_invalid(*t),
        ProtocolType::Struct(fields) => lemma_fields_mention_invalid(fields@),
        ProtocolType::Enum(variants) => lemma_variants_mention_invalid(variants@),
        ProtocolType::Opaque => match s.def {
            ProtocolDef::Array(t) | ProtocolDef::Slice(t) | ProtocolDef::Optional(t) =>
                lemma_char_or_never_invalid(*t),
            _ => {},
        },
        _ => {},
    }
}

/// Fields one of which mentions `char` or `!` cannot all be read and written.
pub proof fn lemma_fields_mention_invalid(fs: Seq<ProtocolField>)
    requires
        fields_mention(fs),
    ensures
        !fields_valid(fs),
    decreases fs, 1int,
{
    let i = choose|i: int| 0 <= i < fs.len() && mentions_char_or_never(#[trigger] fs[i].shape);
    assert(decreases_to!(fs => fs[i]));
    lemma_char_or_never_invalid(fs[i].shape);
}

/// Variants one of which has a field that mentions `char` or `!` cannot all
/// be read and written.
pub proof fn lemma_variants_mention_invalid(vs: Seq<Vec<ProtocolField>>)
    requires
        variants_mention(vs),
    ensures
        !variants_valid(vs),
    decreases vs, 1int,
{
    let i = choose|i: int| 0 <= i < vs.len() && fields_mention(#[trigger] vs[i]@);
    assert(decreases_to!(vs => vs[i]));
    lemma_fields_mention_invalid(vs[i]@);
}

/// An array or a slice can be read and written exactly when its element can;
/// a struct exactly when each of its fields can; an enum exactly when each
/// field of each variant can.
pub proof fn lemma_valid_by_parts(s: ProtocolShape)
    ensures
        s.ty matches ProtocolType::Array(t) ==> (shape_valid(s) <==> shape_valid(*t)),
        s.ty matches ProtocolType::Slice(t) ==> (shape_valid(s) <==> shape_valid(*t)),
        s.ty matches ProtocolType::Struct(fields) ==> (shape_valid(s) <==> forall|i: int|
            0 <= i < fields@.len() ==> shape_valid(#[trigger] fields@[i].shape)),
        s.ty matches ProtocolType::Enum(variants) ==> (shape_valid(s) <==> forall|i: int, j: int|
            0 <= i < variants@.len() && 0 <= j < variants@[i]@.len() ==> shape_valid(
                #[trigger] variants@[i]@[j].shape,
            )),
{
    match s.ty {
        ProtocolType::Struct(fields) => {
            assert(shape_valid(s) == fields_valid(fields@));
        },
        ProtocolType::Enum(variants) => {
            let vs = variants@;
            assert(shape_valid(s) == variants_valid(vs));
            if variants_valid(vs) {
                assert forall|i: int, j: int|
                    0 <= i < vs.len() && 0 <= j < vs[i]@.len() implies shape_valid(
                    #[trigger] vs[i]@[j].shape,
                ) by {
                    assert(fields_valid(vs[i]@));
                }
            } else {
                let i = choose|i: int| 0 <= i < vs.len() && !fields_valid(#[trigger] vs[i]@);
                let j = choose|j: int|
                    0 <= j < vs[i]@.len() && !shape_valid(#[trigger] vs[i]@[j].shape);
                assert(!shape_valid(vs[i]@[j].shape));
            }
        },
        _ => {},
    }
}

/// Whether something that cannot be read or written stands somewhere in a
/// shape: `char`, `!`, or an opaque type of no known use, in the shape
/// itself, in an element, in a field or in what an opaque collection or
/// option holds.
pub open spec fn mentions_unwritable(s: ProtocolShape) -> bool
    decreases s, 2int,
{
    match s.ty {
        ProtocolType::Char | ProtocolType::Never => true,
        ProtocolType::Array(t) | ProtocolType::Slice(t) => mentions_unwritable(*t),
        ProtocolType::Struct(fields) => fields_unwritable(fields@),
        ProtocolType::Enum(variants) => variants_unwritable(variants@),
        ProtocolType::Opaque => match s.def {
            ProtocolDef::Array(t) | ProtocolDef::Slice(t) | ProtocolDef::Optional(t) =>
                mentions_unwritable(*t),
            ProtocolDef::Undefined => true,
            ProtocolDef::Other => false,
        },
        _ => false,
    }
}

/// Whether something unwritable stands in one of the fields.
pub open spec fn fields_unwritable(fs: Seq<ProtocolField>) -> bool
    decreases fs, 1int,
{
    exists|i: int| 0 <= i < fs.len() && mentions_unwritable(#[trigger] fs[i].shape)
}

/// Whether something unwritable stands in a field of one of the variants.
pub open spec fn variants_unwritable(vs: Seq<Vec<ProtocolField>>) -> bool
    decreases vs, 1int,
{
    exists|i: int| 0 <= i < vs.len() && fields_unwritable(#[trigger] vs[i]@)
}

/// A shape can be read and written exactly when nothing unwritable stands
/// anywhere in it.
pub proof fn lemma_valid_iff_nothing_unwritable(s: ProtocolShape)
    ensures
        shape_valid(s) <==> !mentions_unwritable(s),
    decreases s, 2int,
{
    match s.ty {
        ProtocolType::Array(t) | ProtocolType::Slice(t) => lemma_valid_iff_nothing_unwritable(*t),
        ProtocolType::Struct(fields) => lemma_fields_valid_iff(fields@),
        ProtocolType::Enum(variants) => lemma_variants_valid_iff(variants@),
        ProtocolType::Opaque => match s.def {
            ProtocolDef::Array(t) | ProtocolDef::Slice(t) | ProtocolDef::Optional(t) =>
                lemma_valid_iff_nothing_unwritable(*t),
            _ => {},
        },
        _ => {},
    }
}

/// Fields can all be read and written exactly when nothing unwritable stands
/// in any of them.
pub proof fn lemma_fields_valid_iff(fs: Seq<ProtocolField>)
    ensures
        fields_valid(fs) <==> !fields_unwritable(fs),
    decreases fs, 1int,
{
    assert forall|i: int| 0 <= i < fs.len() implies (shape_valid(#[trigger] fs[i].shape)
        <==> !mentions_unwritable(fs[i].shape)) by {
        assert(decreases_to!(fs => fs[i]));
        lemma_valid_iff_nothing_unwritable(fs[i].shape);
    }
}

/// Variants can all be read and written exactly when nothing unwritable
/// stands in any of their fields.
pub proof fn lemma_variants_valid_iff(vs: Seq<Vec<ProtocolField>>)
    ensures
        variants_valid(vs) <==> !variants_unwritable(vs),
    decreases vs, 1int,
{
    assert forall|i: int| 0 <= i < vs.len() implies (fields_valid(#[trigger] vs[i]@)
        <==> !fields_unwritable(vs[i]@)) by {
        assert(decreases_to!(vs => vs[i]));
        lemma_fields_valid_iff(vs[i]@);
    }
}

} // verus!
