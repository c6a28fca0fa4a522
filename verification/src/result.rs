//! Whether a type can be serialized, and whether doing so can fail.
use vstd::prelude::*;

verus! {

/// Indicates whether a type can be serialized and whether it can fail.
#[derive(Debug, Clone, Copy, PartialEq, Eq, Structural, Hash)]
pub enum TypeSerializeResult {
    /// The type will always serialize successfully.
    Infallible,
    /// The type may serialize successfully or fail.
    Fallible,
    /// The type will always fail to serialize.
    Never,
}

/// The overall result of serializing two parts.
pub open spec fn combine(a: TypeSerializeResult, b: TypeSerializeResult) -> TypeSerializeResult {
    if a is Infallible && b is Infallible {
        TypeSerializeResult::Infallible
    } else if a is Never || b is Never {
        TypeSerializeResult::Never
    } else {
        TypeSerializeResult::Fallible
    }
}

impl TypeSerializeResult {
    /// Returns `true` if the type will always serialize successfully.
    ///
    /// When serializing such a type, the only possible errors come from I/O.
    pub fn guaranteed(self) -> (r: bool)
        ensures
            r == (self is Infallible),
    {
        matches!(self, TypeSerializeResult::Infallible)
    }

    /// Returns `true` if the type may serialize successfully; `false` means
    /// the type does not support serialization at all.
    pub fn possible(self) -> (r: bool)
        ensures
            r == !(self is Never),
    {
        !matches!(self, TypeSerializeResult::Never)
    }

    /// Combines two [`TypeSerializeResult`]s into one, returning the overall result.
    pub fn with(self, other: Self) -> (r: Self)
        ensures
            r == combine(self, other),
    {
        match (self, other) {
            (TypeSerializeResult::Infallible, TypeSerializeResult::Infallible) => {
                TypeSerializeResult::Infallible
            },
            (TypeSerializeResult::Never, _) | (_, TypeSerializeResult::Never) => {
                TypeSerializeResult::Never
            },
            _ => TypeSerializeResult::Fallible,
        }
    }
}

/// Combining is order-independent.
pub proof fn lemma_with_commutative(a: TypeSerializeResult, b: TypeSerializeResult)
    ensures
        combine(a, b) == combine(b, a),
{
}

/// Combining three parts gives the same result however they are grouped.
pub proof fn lemma_with_associative(
    a: TypeSerializeResult,
    b: TypeSerializeResult,
    c: TypeSerializeResult,
)
    ensures
        combine(combine(a, b), c) == combine(a, combine(b, c)),
{
}

/// A part that always serializes leaves the other part's result unchanged.
pub proof fn lemma_with_infallible_identity(a: TypeSerializeResult)
    ensures
        combine(TypeSerializeResult::Infallible, a) == a,
{
}

/// A part that can never serialize makes the whole unserializable.
pub proof fn lemma_with_never_absorbs(a: TypeSerializeResult)
    ensures
        combine(TypeSerializeResult::Never, a) == TypeSerializeResult::Never,
{
}

/// The whole is guaranteed only when both parts are, and possible only when
/// both parts are.
pub proof fn lemma_with_guaranteed_possible(a: TypeSerializeResult, b: TypeSerializeResult)
    ensures
        (combine(a, b) is Infallible) == (a is Infallible && b is Infallible),
        !(combine(a, b) is Never) == (!(a is Never) && !(b is Never)),
{
}

} // verus!
