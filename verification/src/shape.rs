//! What the size analysis reads of a type: its definition, its kind, its
//! layout, its name and the attributes on the field that holds it.
use vstd::prelude::*;

verus! {

/// An attribute on a field, as `namespace::key`.
pub struct FieldAttribute {
    /// The attribute's namespace, if it has one.
    pub ns: Option<String>,
    /// The attribute's key.
    pub key: String,
}

/// The shape of a type.
pub struct ShapeModel {
    /// How the type is used: as a collection, an option, a pointer, ...
    pub def: ShapeDef,
    /// What the type is made of.
    pub ty: ShapeType,
    /// The size of the type in memory; `None` for unsized types.
    pub layout: Option<usize>,
    /// The type's name, without its path or generics.
    pub type_identifier: String,
}

/// How a type is used.
pub enum ShapeDef {
    /// A map from keys of the first shape to values of the second.
    KeyValue(Box<ShapeModel>, Box<ShapeModel>),
    /// A set of values.
    Distinct(Box<ShapeModel>),
    /// A growable list of values.
    List(Box<ShapeModel>),
    /// A slice of values.
    Slice(Box<ShapeModel>),
    /// An array of a fixed number of values.
    Array(Box<ShapeModel>, usize),
    /// An optional value.
    Optional(Box<ShapeModel>),
    /// Either a success of the first shape or a failure of the second.
    Fallible(Box<ShapeModel>, Box<ShapeModel>),
    /// A smart pointer, with the shape it points to when that is known.
    Pointer(Option<Box<ShapeModel>>),
    /// A scalar.
    Scalar,
    /// No particular use: the type is described by what it is made of.
    Undefined,
    /// Any other use.
    Other,
}

/// What a type is made of.
pub enum ShapeType {
    /// `bool`.
    Boolean,
    /// An integer.
    Integer,
    /// A floating-point number.
    Float,
    /// `str`.
    Str,
    /// `char`.
    Char,
    /// `!`.
    Never,
    /// `[T; N]`.
    Array(Box<ShapeModel>, usize),
    /// `[T]`.
    Slice,
    /// A struct, with its number of fields.
    Struct(usize),
    /// An enum, with the number of fields of each variant.
    Enum(Vec<usize>),
    /// A type whose contents are not described.
    Opaque,
    /// A union.
    Union,
    /// `&T` or `&mut T`.
    Reference(Box<ShapeModel>),
    /// `*const T` or `*mut T`.
    RawPointer,
    /// `fn(..)`.
    FunctionPointer,
    /// Nothing is known.
    Undefined,
}

} // verus!
