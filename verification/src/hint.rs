//! Hints for how many bytes a type takes once serialized.
use crate::shape::{FieldAttribute, ShapeDef, ShapeModel, ShapeType};
use vstd::prelude::*;

verus! {

/// A hint for the size of a type when serialized.
#[derive(Debug, Clone, Copy, PartialEq, Eq, Structural, Hash)]
pub enum TypeSizeHint {
    /// An exact size.
    Exact { size: usize },
    /// A size range, inclusive.
    Range { min: usize, max: Option<usize> },
    /// No size hint available.
    Unknown,
}

/// The smallest size a hint allows, if it gives one.
pub open spec fn hint_min(h: TypeSizeHint) -> Option<usize> {
    match h {
        TypeSizeHint::Exact { size } => Some(size),
        TypeSizeHint::Range { min, .. } => Some(min),
        TypeSizeHint::Unknown => None,
    }
}

/// The largest size a hint allows, if it gives one.
pub open spec fn hint_max(h: TypeSizeHint) -> Option<usize> {
    match h {
        TypeSizeHint::Exact { size } => Some(size),
        TypeSizeHint::Range { max, .. } => max,
        TypeSizeHint::Unknown => None,
    }
}

/// Whether a value of `n` bytes is within what the hint allows.
pub open spec fn admits(h: TypeSizeHint, n: nat) -> bool {
    match h {
        TypeSizeHint::Exact { size } => n == size,
        TypeSizeHint::Range { min, max } => min <= n && (max matches Some(m) ==> n <= m),
        TypeSizeHint::Unknown => true,
    }
}

/// The hint for a size between `min` and `max`.
pub open spec fn hint_from_min_max(min: Option<usize>, max: Option<usize>) -> TypeSizeHint {
    match (min, max) {
        (Some(lo), Some(hi)) => if lo > hi {
            TypeSizeHint::Unknown
        } else if lo == hi {
            TypeSizeHint::Exact { size: lo }
        } else {
            TypeSizeHint::Range { min: lo, max: Some(hi) }
        },
        (Some(lo), None) => TypeSizeHint::Range { min: lo, max: None },
        _ => TypeSizeHint::Unknown,
    }
}

/// The hint for `n` values that each follow hint `h`.
pub open spec fn hint_multiply(h: TypeSizeHint, n: usize) -> TypeSizeHint {
    match h {
        TypeSizeHint::Exact { size } => TypeSizeHint::Exact { size: (size * n) as usize },
        TypeSizeHint::Range { min, max } => TypeSizeHint::Range {
            min: (min * n) as usize,
            max: match max {
                Some(m) => Some((m * n) as usize),
                None => None,
            },
        },
        TypeSizeHint::Unknown => TypeSizeHint::Unknown,
    }
}

/// Whether multiplying `h` by `n` stays within `usize`.
pub open spec fn multiply_fits(h: TypeSizeHint, n: usize) -> bool {
    match h {
        TypeSizeHint::Exact { size } => size * n <= usize::MAX,
        TypeSizeHint::Range { min, max } => min * n <= usize::MAX && (max matches Some(m) ==> m
            * n <= usize::MAX),
        TypeSizeHint::Unknown => true,
    }
}

/// The hint for one value following `a` and then one following `b`.
pub open spec fn hint_add(a: TypeSizeHint, b: TypeSizeHint) -> TypeSizeHint {
    match (a, b) {
        (TypeSizeHint::Exact { size: x }, TypeSizeHint::Exact { size: y }) => TypeSizeHint::Exact {
            size: (x + y) as usize,
        },
        (TypeSizeHint::Exact { size: e }, TypeSizeHint::Range { min, max })
        | (TypeSizeHint::Range { min, max }, TypeSizeHint::Exact { size: e }) => TypeSizeHint::Range {
            min: (min + e) as usize,
            max: match max {
                Some(m) => Some((m + e) as usize),
                None => None,
            },
        },
        (
            TypeSizeHint::Range { min: min_a, max: max_a },
            TypeSizeHint::Range { min: min_b, max: max_b },
        ) => TypeSizeHint::Range {
            min: (min_a + min_b) as usize,
            max: match (max_a, max_b) {
                (Some(x), Some(y)) => Some((x + y) as usize),
                _ => None,
            },
        },
        _ => TypeSizeHint::Unknown,
    }
}

/// Whether adding `a` and `b` stays within `usize`.
pub open spec fn add_fits(a: TypeSizeHint, b: TypeSizeHint) -> bool {
    match (a, b) {
        (TypeSizeHint::Exact { size: x }, TypeSizeHint::Exact { size: y }) => x + y <= usize::MAX,
        (TypeSizeHint::Exact { size: e }, TypeSizeHint::Range { min, max })
        | (TypeSizeHint::Range { min, max }, TypeSizeHint::Exact { size: e }) => min + e
            <= usize::MAX && (max matches Some(m) ==> m + e <= usize::MAX),
        (
            TypeSizeHint::Range { min: min_a, max: max_a },
            TypeSizeHint::Range { min: min_b, max: max_b },
        ) => min_a + min_b <= usize::MAX && match (max_a, max_b) {
            (Some(x), Some(y)) => x + y <= usize::MAX,
            _ => true,
        },
        _ => true,
    }
}

impl TypeSizeHint {
    /// Returns the minimum size hint, if available.
    pub fn minimum(&self) -> (r: Option<usize>)
        ensures
            r == hint_min(*self),
    {
        match self {
            TypeSizeHint::Exact { size } => Some(*size),
            TypeSizeHint::Range { min, .. } => Some(*min),
            TypeSizeHint::Unknown => None,
        }
    }

    /// Returns the maximum size hint, if available.
    pub fn maximum(&self) -> (r: Option<usize>)
        ensures
            r == hint_max(*self),
    {
        match self {
            TypeSizeHint::Exact { size } => Some(*size),
            TypeSizeHint::Range { max, .. } => *max,
            TypeSizeHint::Unknown => None,
        }
    }

    /// Creates a new [`TypeSizeHint`] from the given min and max sizes.
    ///
    /// If `min` is greater than `max` the result is `None`; if both are given
    /// and equal it is `Exact`; otherwise, if `min` is given, it is `Range`;
    /// without `min` it is `None`.
    pub fn from_min_max(min: Option<usize>, max: Option<usize>) -> (r: Self)
        ensures
            r == hint_from_min_max(min, max),
    {
        match (min, max) {
            (Some(lo), Some(hi)) => {
                if lo > hi {
                    TypeSizeHint::Unknown
                } else if lo == hi {
                    TypeSizeHint::Exact { size: lo }
                } else {
                    TypeSizeHint::Range { min: lo, max: Some(hi) }
                }
            },
            (Some(lo), max) => TypeSizeHint::Range { min: lo, max },
            _ => TypeSizeHint::Unknown,
        }
    }

    /// Multiplies the size hint by the given factor, as for an array of `n`
    /// values.
    pub fn multiply(self, n: usize) -> (r: Self)
        requires
            multiply_fits(self, n),
        ensures
            r == hint_multiply(self, n),
    {
        match self {
            TypeSizeHint::Exact { size } => TypeSizeHint::Exact { size: size * n },
            TypeSizeHint::Range { min, max } => {
                if let Some(max) = max {
                    TypeSizeHint::Range { min: min * n, max: Some(max * n) }
                } else {
                    TypeSizeHint::Range { min: min * n, max: None }
                }
            },
            TypeSizeHint::Unknown => TypeSizeHint::Unknown,
        }
    }

    /// Combines two [`TypeSizeHint`]s into one, the hint for a value of the
    /// first followed by a value of the second.
    ///
    /// `Exact` + `Exact` is `Exact`, `Exact` + `Range` and `Range` + `Range`
    /// are `Range`, and `None` with anything is `None`.
    pub fn add(self, other: Self) -> (r: Self)
        requires
            add_fits(self, other),
        ensures
            r == hint_add(self, other),
    {
        match (self, other) {
            (TypeSizeHint::Exact { size: a }, TypeSizeHint::Exact { size: b }) => {
                TypeSizeHint::Exact { size: a + b }
            },
            (TypeSizeHint::Exact { size: exact }, TypeSizeHint::Range { min, max })
            | (TypeSizeHint::Range { min, max }, TypeSizeHint::Exact { size: exact }) => {
                if let Some(max) = max {
                    TypeSizeHint::Range { min: min + exact, max: Some(max + exact) }
                } else {
                    TypeSizeHint::Range { min: min + exact, max: None }
                }
            },
            (
                TypeSizeHint::Range { min: min_a, max: max_a },
                TypeSizeHint::Range { min: min_b, max: max_b },
            ) => TypeSizeHint::Range {
                min: min_a + min_b,
                max: match (max_a, max_b) {
                    (Some(ma), Some(mb)) => Some(ma + mb),
                    _ => None,
                },
            },
            (TypeSizeHint::Unknown, _) | (_, TypeSizeHint::Unknown) => TypeSizeHint::Unknown,
        }
    }
}

// ---------------------------------------------------------------------------------------------

/// The hint for a variable-length `u16`.
pub open spec fn var_u16_hint() -> TypeSizeHint {
    TypeSizeHint::Range { min: 1, max: Some(3) }
}

/// The hint for a variable-length `u32`.
pub open spec fn var_u32_hint() -> TypeSizeHint {
    TypeSizeHint::Range { min: 1, max: Some(5) }
}

/// The hint for a variable-length length followed by any number of bytes.
pub open spec fn var_u32_unbounded_hint() -> TypeSizeHint {
    TypeSizeHint::Range { min: 1, max: None }
}

/// The hint for a variable-length `u64`.
pub open spec fn var_u64_hint() -> TypeSizeHint {
    TypeSizeHint::Range { min: 1, max: Some(10) }
}

/// The hint for a variable-length `u128`.
pub open spec fn var_u128_hint() -> TypeSizeHint {
    TypeSizeHint::Range { min: 1, max: Some(19) }
}

/// Whether an attribute is in the `mc` namespace.
pub open spec fn attr_is_mc(a: FieldAttribute) -> bool {
    match a.ns {
        Some(n) => n@ == "mc"@,
        None => false,
    }
}

/// Whether the attributes name a custom serialization or deserialization
/// function.
pub open spec fn has_custom_attr(attrs: Seq<FieldAttribute>) -> bool {
    exists|i: int|
        0 <= i < attrs.len() && #[trigger] attr_is_mc(attrs[i]) && (attrs[i].key@ == "serialize"@
            || attrs[i].key@ == "deserialize"@)
}

/// Whether the attributes mark a field as variable-length.
pub open spec fn has_variable_attr(attrs: Seq<FieldAttribute>) -> bool {
    exists|i: int| 0 <= i < attrs.len() && #[trigger] attr_is_mc(attrs[i]) && attrs[i].key@ == "variable"@
}

/// The attributes of a field, as a sequence.
pub open spec fn attrs_view(attrs: Option<&[FieldAttribute]>) -> Option<Seq<FieldAttribute>> {
    match attrs {
        Some(a) => Some(a@),
        None => None,
    }
}

/// The running minimum after one more hint.
pub open spec fn fold_step_min(min: Option<usize>, hint: TypeSizeHint) -> Option<usize> {
    match (min, hint_min(hint)) {
        (Some(m), Some(h)) => Some(if m > h { h } else { m }),
        _ => None,
    }
}

/// The running maximum after one more hint.
pub open spec fn fold_step_max(max: Option<usize>, hint: TypeSizeHint) -> Option<usize> {
    match (max, hint_max(hint)) {
        (Some(m), Some(h)) => Some(if m < h { h } else { m }),
        _ => None,
    }
}

/// The smallest of the minimums of `hints`, starting from `usize::MAX`;
/// `None` as soon as one of them has no minimum.
pub open spec fn fold_min(hints: Seq<TypeSizeHint>) -> Option<usize>
    decreases hints.len(),
{
    if hints.len() == 0 {
        Some(usize::MAX)
    } else {
        fold_step_min(fold_min(hints.drop_last()), hints.last())
    }
}

/// The largest of the maximums of `hints`, starting from zero; `None` as soon
/// as one of them has no maximum.
pub open spec fn fold_max(hints: Seq<TypeSizeHint>) -> Option<usize>
    decreases hints.len(),
{
    if hints.len() == 0 {
        Some(0)
    } else {
        fold_step_max(fold_max(hints.drop_last()), hints.last())
    }
}

/// The hint for the smallest to the largest of `hints`.
pub open spec fn hint_span(hints: Seq<TypeSizeHint>) -> TypeSizeHint {
    hint_from_min_max(fold_min(hints), fold_max(hints))
}

/// The hint for a list of `count` fields whose shapes are not looked into:
/// exactly nothing when there are none, and unknown otherwise.
pub open spec fn field_hint(count: usize) -> TypeSizeHint {
    if count == 0 {
        TypeSizeHint::Exact { size: 0 }
    } else {
        TypeSizeHint::Unknown
    }
}

/// The hint for each variant of an enum whose variants have `counts` fields.
pub open spec fn variant_hints(counts: Seq<usize>) -> Seq<TypeSizeHint> {
    counts.map_values(|c: usize| field_hint(c))
}

/// The size hint of a shape, given the attributes of the field that holds it.
pub open spec fn shape_hint(s: ShapeModel, attrs: Option<Seq<FieldAttribute>>) -> TypeSizeHint
    decreases s, 1int,
{
    match s.def {
        ShapeDef::KeyValue(k, v) => if shape_hint(*k, attrs) == (TypeSizeHint::Exact { size: 0 })
            && shape_hint(*v, attrs) == (TypeSizeHint::Exact { size: 0 }) {
            var_u32_hint()
        } else {
            var_u32_unbounded_hint()
        },
        ShapeDef::Distinct(t) | ShapeDef::List(t) | ShapeDef::Slice(t) => if shape_hint(*t, attrs) == (
        TypeSizeHint::Exact { size: 0 }) {
            var_u32_hint()
        } else {
            var_u32_unbounded_hint()
        },
        ShapeDef::Array(t, n) => hint_multiply(shape_hint(*t, attrs), n),
        ShapeDef::Optional(t) => match hint_max(shape_hint(*t, attrs)) {
            Some(m) => TypeSizeHint::Range { min: 1, max: Some((1 + m) as usize) },
            None => var_u32_unbounded_hint(),
        },
        ShapeDef::Fallible(t, e) => hint_add(
            TypeSizeHint::Exact { size: 1 },
            hint_span(seq![shape_hint(*t, attrs), shape_hint(*e, attrs)]),
        ),
        ShapeDef::Pointer(p) => match p {
            Some(inner) => shape_hint(*inner, attrs),
            None => ty_hint(s, attrs),
        },
        ShapeDef::Scalar | ShapeDef::Undefined => ty_hint(s, attrs),
        ShapeDef::Other => TypeSizeHint::Unknown,
    }
}

/// The size hint of a shape from what it is made of.
pub open spec fn ty_hint(s: ShapeModel, attrs: Option<Seq<FieldAttribute>>) -> TypeSizeHint
    decreases s, 0int,
{
    match s.ty {
        ShapeType::Boolean => TypeSizeHint::Exact { size: 1 },
        ShapeType::Integer | ShapeType::Float => match s.layout {
            None => TypeSizeHint::Unknown,
            Some(size) => {
                let custom = match attrs {
                    Some(a) => has_custom_attr(a),
                    None => false,
                };
                let variable = match attrs {
                    Some(a) => has_variable_attr(a),
                    None => false,
                };
                if custom {
                    TypeSizeHint::Unknown
                } else if !variable {
                    TypeSizeHint::Exact { size }
                } else if s.ty is Float {
                    TypeSizeHint::Unknown
                } else if size == 2 {
                    var_u16_hint()
                } else if size == 4 {
                    var_u32_hint()
                } else if size == 8 {
                    var_u64_hint()
                } else if size == 16 {
                    var_u128_hint()
                } else {
                    TypeSizeHint::Unknown
                }
            },
        },
        ShapeType::Str => var_u32_unbounded_hint(),
        ShapeType::Char | ShapeType::Never => TypeSizeHint::Unknown,
        ShapeType::Array(t, n) => hint_multiply(shape_hint(*t, None), n),
        ShapeType::Slice => var_u32_unbounded_hint(),
        ShapeType::Struct(count) => field_hint(count),
        ShapeType::Enum(counts) => hint_add(var_u32_hint(), hint_span(variant_hints(counts@))),
        ShapeType::Opaque => if s.type_identifier@ == "String"@ {
            var_u32_unbounded_hint()
        } else if s.type_identifier@ == "Uuid"@ {
            TypeSizeHint::Exact { size: 16 }
        } else {
            TypeSizeHint::Unknown
        },
        ShapeType::Union => TypeSizeHint::Unknown,
        ShapeType::Reference(t) => shape_hint(*t, attrs),
        ShapeType::RawPointer | ShapeType::FunctionPointer => TypeSizeHint::Unknown,
        ShapeType::Undefined => TypeSizeHint::Unknown,
    }
}

/// Whether computing the size hint of a shape stays within `usize` at every
/// step.
pub open spec fn shape_hint_fits(s: ShapeModel, attrs: Option<Seq<FieldAttribute>>) -> bool
    decreases s, 1int,
{
    match s.def {
        ShapeDef::KeyValue(k, v) => shape_hint_fits(*k, attrs) && (shape_hint(*k, attrs) == (
        TypeSizeHint::Exact { size: 0 }) ==> shape_hint_fits(*v, attrs)),
        ShapeDef::Distinct(t) | ShapeDef::List(t) | ShapeDef::Slice(t) => shape_hint_fits(*t, attrs),
        ShapeDef::Array(t, n) => shape_hint_fits(*t, attrs) && multiply_fits(
            shape_hint(*t, attrs),
            n,
        ),
        ShapeDef::Optional(t) => shape_hint_fits(*t, attrs) && (hint_max(shape_hint(*t, attrs))
            matches Some(m) ==> m < usize::MAX),
        ShapeDef::Fallible(t, e) => shape_hint_fits(*t, attrs) && shape_hint_fits(*e, attrs)
            && add_fits(
            TypeSizeHint::Exact { size: 1 },
            hint_span(seq![shape_hint(*t, attrs), shape_hint(*e, attrs)]),
        ),
        ShapeDef::Pointer(p) => match p {
            Some(inner) => shape_hint_fits(*inner, attrs),
            None => ty_hint_fits(s, attrs),
        },
        ShapeDef::Scalar | ShapeDef::Undefined => ty_hint_fits(s, attrs),
        ShapeDef::Other => true,
    }
}

/// Whether computing the size hint of a shape from what it is made of stays
/// within `usize` at every step.
pub open spec fn ty_hint_fits(s: ShapeModel, attrs: Option<Seq<FieldAttribute>>) -> bool
    decreases s, 0int,
{
    match s.ty {
        ShapeType::Array(t, n) => shape_hint_fits(*t, None) && multiply_fits(
            shape_hint(*t, None),
            n,
        ),
        ShapeType::Enum(counts) => add_fits(var_u32_hint(), hint_span(variant_hints(counts@))),
        ShapeType::Reference(t) => shape_hint_fits(*t, attrs),
        _ => true,
    }
}

/// One step of the running minimum and maximum over a list of hints.
fn fold_step(min: Option<usize>, max: Option<usize>, hint: TypeSizeHint) -> (r: (
    Option<usize>,
    Option<usize>,
))
    ensures
        r.0 == fold_step_min(min, hint),
        r.1 == fold_step_max(max, hint),
{
    let mut min = min;
    let mut max = max;
    match (min, hint.minimum()) {
        (Some(m), Some(h)) => {
            if m > h {
                min = Some(h);
            }
        },
        _ => {
            min = None;
        },
    }
    match (max, hint.maximum()) {
        (Some(m), Some(h)) => {
            if m < h {
                max = Some(h);
            }
        },
        _ => {
            max = None;
        },
    }
    (min, max)
}

/// Calculates the [`TypeSizeHint`] for a [`ShapeModel`], given the attributes
/// of the field that holds it.
pub fn calculate_shape_hint(shape: &ShapeModel, attrs: Option<&[FieldAttribute]>) -> (r:
    TypeSizeHint)
    requires
        shape_hint_fits(*shape, attrs_view(attrs)),
    ensures
        r == shape_hint(*shape, attrs_view(attrs)),
    decreases *shape, 1int,
{
    match &shape.def {
        ShapeDef::KeyValue(k, v) => {
            let hk = calculate_shape_hint(&**k, attrs);
            if hk == (TypeSizeHint::Exact { size: 0 }) {
                let hv = calculate_shape_hint(&**v, attrs);
                if hv == (TypeSizeHint::Exact { size: 0 }) {
                    return TypeSizeHint::Range { min: 1, max: Some(5) };
                }
            }
            TypeSizeHint::Range { min: 1, max: None }
        },
        ShapeDef::Distinct(t) | ShapeDef::List(t) | ShapeDef::Slice(t) => {
            if calculate_shape_hint(&**t, attrs) == (TypeSizeHint::Exact { size: 0 }) {
                TypeSizeHint::Range { min: 1, max: Some(5) }
            } else {
                TypeSizeHint::Range { min: 1, max: None }
            }
        },
        ShapeDef::Array(t, n) => calculate_shape_hint(&**t, attrs).multiply(*n),
        ShapeDef::Optional(t) => {
            let hint = calculate_shape_hint(&**t, attrs);
            if let Some(max) = hint.maximum() {
                TypeSizeHint::Range { min: 1, max: Some(1 + max) }
            } else {
                TypeSizeHint::Range { min: 1, max: None }
            }
        },
        ShapeDef::Fallible(t, e) => {
            let ht = calculate_shape_hint(&**t, attrs);
            let he = calculate_shape_hint(&**e, attrs);
            let (min, max) = fold_step(Some(usize::MAX), Some(0), ht);
            let (min, max) = fold_step(min, max, he);
            proof {
                let hints = seq![ht, he];
                assert(hints.drop_last() =~= seq![ht]);
                assert(seq![ht].drop_last() =~= Seq::<TypeSizeHint>::empty());
                assert(fold_min(Seq::<TypeSizeHint>::empty()) == Some(usize::MAX));
                assert(fold_max(Seq::<TypeSizeHint>::empty()) == Some(0usize));
                assert(fold_min(seq![ht]) == fold_step_min(Some(usize::MAX), ht));
                assert(fold_max(seq![ht]) == fold_step_max(Some(0usize), ht));
                assert(fold_min(hints) == min);
                assert(fold_max(hints) == max);
            }
            TypeSizeHint::Exact { size: 1 }.add(TypeSizeHint::from_min_max(min, max))
        },
        ShapeDef::Pointer(p) => {
            if let Some(inner) = p {
                calculate_shape_hint(&**inner, attrs)
            } else {
                calculate_ty_hint(shape, attrs)
            }
        },
        ShapeDef::Scalar | ShapeDef::Undefined => calculate_ty_hint(shape, attrs),
        ShapeDef::Other => TypeSizeHint::Unknown,
    }
}

/// Whether `name` is `expected`.
fn name_is(name: &String, expected: &str) -> (r: bool)
    ensures
        r == (name@ == expected@),
{
    *name == expected.to_owned()
}

/// Calculates the [`TypeSizeHint`] for a [`ShapeModel`] from what it is made
/// of.
pub fn calculate_ty_hint(shape: &ShapeModel, attrs: Option<&[FieldAttribute]>) -> (r:
    TypeSizeHint)
    requires
        ty_hint_fits(*shape, attrs_view(attrs)),
    ensures
        r == ty_hint(*shape, attrs_view(attrs)),
    decreases *shape, 0int,
{
    match &shape.ty {
        ShapeType::Boolean => TypeSizeHint::Exact { size: 1 },
        ShapeType::Integer | ShapeType::Float => {
            let size = match shape.layout {
                Some(size) => size,
                None => return TypeSizeHint::Unknown,
            };
            let mut variable = false;
            if let Some(field_attrs) = attrs {
                let mut index: usize = 0;
                while index < field_attrs.len()
                    invariant
                        index <= field_attrs.len(),
                        attrs == Some(field_attrs),
                        shape.layout == Some(size),
                        shape.ty is Integer || shape.ty is Float,
                        variable == exists|j: int|
                            0 <= j < index && #[trigger] attr_is_mc(field_attrs@[j])
                                && field_attrs@[j].key@ == "variable"@,
                        forall|j: int|
                            0 <= j < index && #[trigger] attr_is_mc(field_attrs@[j]) ==> !(
                            field_attrs@[j].key@ == "serialize"@ || field_attrs@[j].key@
                                == "deserialize"@),
                    decreases field_attrs.len() - index,
                {
                    proof {
                        reveal_strlit("variable");
                        reveal_strlit("serialize");
                        reveal_strlit("deserialize");
                    }
                    let attr = &field_attrs[index];
                    let ghost j = index as int;
                    assert(*attr == field_attrs@[j]);
                    index += 1;
                    let mut is_mc = false;
                    if let Some(name) = &attr.ns {
                        is_mc = name_is(name, "mc");
                    }
                    assert(is_mc == attr_is_mc(field_attrs@[j]));
                    if is_mc {
                        if name_is(&attr.key, "variable") {
                            variable = true;
                            assert("variable"@.len() == 8 && "serialize"@.len() == 9
                                && "deserialize"@.len() == 11);
                            assert(attr.key@ != "serialize"@ && attr.key@ != "deserialize"@);
                        } else if name_is(&attr.key, "serialize") || name_is(
                            &attr.key,
                            "deserialize",
                        ) {
                            assert(has_custom_attr(field_attrs@));
                            return TypeSizeHint::Unknown;
                        }
                    }
                }
                assert(variable == has_variable_attr(field_attrs@));
                assert(!has_custom_attr(field_attrs@));
            }
            if !variable {
                TypeSizeHint::Exact { size }
            } else if let ShapeType::Float = &shape.ty {
                TypeSizeHint::Unknown
            } else if size == 2 {
                TypeSizeHint::Range { min: 1, max: Some(3) }
            } else if size == 4 {
                TypeSizeHint::Range { min: 1, max: Some(5) }
            } else if size == 8 {
                TypeSizeHint::Range { min: 1, max: Some(10) }
            } else if size == 16 {
                TypeSizeHint::Range { min: 1, max: Some(19) }
            } else {
                TypeSizeHint::Unknown
            }
        },
        ShapeType::Str => TypeSizeHint::Range { min: 1, max: None },
        ShapeType::Char | ShapeType::Never => TypeSizeHint::Unknown,
        ShapeType::Array(t, n) => calculate_shape_hint(&**t, None).multiply(*n),
        ShapeType::Slice => TypeSizeHint::Range { min: 1, max: None },
        ShapeType::Struct(count) => calculate_field_hint(*count),
        ShapeType::Enum(counts) => {
            let mut index: usize = 0;
            let mut min: Option<usize> = Some(usize::MAX);
            let mut max: Option<usize> = Some(0);
            while index < counts.len()
                invariant
                    index <= counts.len(),
                    min == fold_min(variant_hints(counts@).take(index as int)),
                    max == fold_max(variant_hints(counts@).take(index as int)),
                decreases counts.len() - index,
            {
                let hint = calculate_field_hint(counts[index]);
                let ghost hints = variant_hints(counts@);
                let r = fold_step(min, max, hint);
                min = r.0;
                max = r.1;
                index += 1;
                assert(hints.take(index as int).drop_last() =~= hints.take(index - 1));
            }
            assert(variant_hints(counts@).take(counts.len() as int) =~= variant_hints(counts@));
            TypeSizeHint::Range { min: 1, max: Some(5) }.add(TypeSizeHint::from_min_max(min, max))
        },
        ShapeType::Opaque => {
            if name_is(&shape.type_identifier, "String") {
                TypeSizeHint::Range { min: 1, max: None }
            } else if name_is(&shape.type_identifier, "Uuid") {
                TypeSizeHint::Exact { size: 16 }
            } else {
                TypeSizeHint::Unknown
            }
        },
        ShapeType::Union => TypeSizeHint::Unknown,
        ShapeType::Reference(t) => calculate_shape_hint(&**t, attrs),
        ShapeType::RawPointer | ShapeType::FunctionPointer => TypeSizeHint::Unknown,
        ShapeType::Undefined => TypeSizeHint::Unknown,
    }
}

/// Calculates the [`TypeSizeHint`] for a list of `count` fields: the fields'
/// own shapes are not looked into, so any field leaves the size unknown.
pub fn calculate_field_hint(count: usize) -> (r: TypeSizeHint)
    ensures
        r == field_hint(count),
{
    let mut acc = TypeSizeHint::Exact { size: 0 };
    let mut index: usize = 0;
    while index < count
        invariant
            index <= count,
            acc == (if index == 0 {
                TypeSizeHint::Exact { size: 0 }
            } else {
                TypeSizeHint::Unknown
            }),
        decreases count - index,
    {
        index += 1;
        acc = TypeSizeHint::Unknown;
    }
    acc
}

/// The order of two parts does not change the hint for both.
pub proof fn lemma_add_commutative(a: TypeSizeHint, b: TypeSizeHint)
    ensures
        hint_add(a, b) == hint_add(b, a),
        add_fits(a, b) == add_fits(b, a),
{
}

/// A part of no bytes leaves the hint of the other part unchanged.
pub proof fn lemma_add_zero_identity(a: TypeSizeHint)
    ensures
        hint_add(TypeSizeHint::Exact { size: 0 }, a) == a,
        add_fits(TypeSizeHint::Exact { size: 0 }, a),
{
}

/// Without a hint for one part there is no hint for both.
pub proof fn lemma_add_none_absorbs(a: TypeSizeHint)
    ensures
        hint_add(TypeSizeHint::Unknown, a) == TypeSizeHint::Unknown,
        hint_add(a, TypeSizeHint::Unknown) == TypeSizeHint::Unknown,
{
}

/// Three parts give the same hint however they are grouped.
pub proof fn lemma_add_associative(a: TypeSizeHint, b: TypeSizeHint, c: TypeSizeHint)
    requires
        add_fits(a, b),
        add_fits(hint_add(a, b), c),
        add_fits(b, c),
        add_fits(a, hint_add(b, c)),
    ensures
        hint_add(hint_add(a, b), c) == hint_add(a, hint_add(b, c)),
{
}

/// If two parts have sizes their hints allow, the whole has a size the
/// combined hint allows.
pub proof fn lemma_add_sound(a: TypeSizeHint, b: TypeSizeHint, x: nat, y: nat)
    requires
        admits(a, x),
        admits(b, y),
        add_fits(a, b),
    ensures
        admits(hint_add(a, b), x + y),
{
}

/// If each of `n` values has size `x` allowed by `h`, the `n` values together
/// have a size the multiplied hint allows.
pub proof fn lemma_multiply_sound(h: TypeSizeHint, n: usize, x: nat)
    requires
        admits(h, x),
        multiply_fits(h, n),
    ensures
        admits(hint_multiply(h, n), x * (n as nat)),
{
    match h {
        TypeSizeHint::Exact { size } => {},
        TypeSizeHint::Range { min, max } => {
            assert(min * n <= x * n) by (nonlinear_arith)
                requires
                    min <= x,
            ;
            if let Some(m) = max {
                assert(x * n <= m * n) by (nonlinear_arith)
                    requires
                        x <= m,
                ;
            }
        },
        TypeSizeHint::Unknown => {},
    }
}

/// Every size between `min` and `max` is allowed by the hint built from them,
/// and when there is an upper bound no size outside them is.
pub proof fn lemma_from_min_max_sound(lo: usize, max: Option<usize>, n: nat)
    requires
        max matches Some(hi) ==> lo <= hi,
    ensures
        admits(hint_from_min_max(Some(lo), max), n) == (lo <= n && (max matches Some(hi) ==> n
            <= hi)),
{
}

} // verus!
