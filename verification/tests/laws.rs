//! The algebra of size hints and serialization results on concrete values.
use facet_minecraft::buffer::to_vec;
use facet_minecraft::hint::{calculate_shape_hint, TypeSizeHint};
use facet_minecraft::shape::{ShapeDef, ShapeModel, ShapeType};
use facet_minecraft::value::Value;
use facet_minecraft::protocol::{valid_shape, ProtocolDef, ProtocolField, ProtocolShape, ProtocolType};
use facet_minecraft::process::PartialValue;
use facet_minecraft::result::TypeSerializeResult;
use facet_minecraft::result::TypeSerializeResult::{Fallible, Infallible, Never};

#[test]
fn hint_add_laws() {
    let a = TypeSizeHint::Exact { size: 3 };
    let b = TypeSizeHint::Range { min: 1, max: Some(5) };
    let c = TypeSizeHint::Range { min: 2, max: None };
    assert_eq!(a.add(b), b.add(a));
    assert_eq!(a.add(b), TypeSizeHint::Range { min: 4, max: Some(8) });
    assert_eq!(a.add(b).add(c), a.add(b.add(c)));
    assert_eq!(a.add(b).add(c), TypeSizeHint::Range { min: 6, max: None });
    assert_eq!(a.add(TypeSizeHint::Exact { size: 0 }), a);
    assert_eq!(a.add(TypeSizeHint::Unknown), TypeSizeHint::Unknown);
}

#[test]
fn hint_multiply_and_bounds() {
    let b = TypeSizeHint::Range { min: 1, max: Some(5) };
    assert_eq!(b.multiply(3), TypeSizeHint::Range { min: 3, max: Some(15) });
    assert_eq!(TypeSizeHint::Exact { size: 4 }.multiply(0), TypeSizeHint::Exact { size: 0 });
    assert_eq!(b.minimum(), Some(1));
    assert_eq!(b.maximum(), Some(5));
    assert_eq!(TypeSizeHint::Unknown.minimum(), None);
    assert_eq!(TypeSizeHint::from_min_max(Some(2), Some(2)), TypeSizeHint::Exact { size: 2 });
    assert_eq!(TypeSizeHint::from_min_max(Some(3), Some(2)), TypeSizeHint::Unknown);
    assert_eq!(TypeSizeHint::from_min_max(Some(3), None), TypeSizeHint::Range { min: 3, max: None });
}

#[test]
fn result_with_laws() {
    for a in [Infallible, Fallible, Never] {
        assert_eq!(a.with(Infallible), a);
        assert_eq!(a.with(Never), Never);
        for b in [Infallible, Fallible, Never] {
            assert_eq!(a.with(b), b.with(a));
            assert_eq!(a.with(b).guaranteed(), a.guaranteed() && b.guaranteed());
        }
    }
    assert!(Fallible.possible());
    assert!(!Never.possible());
}

fn shape(ty: ProtocolType) -> ProtocolShape {
    ProtocolShape { ty, def: ProtocolDef::Undefined, size: Some(4) }
}

#[test]
fn protocol_shapes() {
    assert!(valid_shape(&shape(ProtocolType::Integer)));
    assert!(!valid_shape(&shape(ProtocolType::Char)));
    let fields = vec![
        ProtocolField { attributes: vec![String::from("var")], shape: shape(ProtocolType::Integer) },
        ProtocolField { attributes: vec![], shape: shape(ProtocolType::Primitive) },
    ];
    assert!(valid_shape(&shape(ProtocolType::Struct(fields))));
    let bad = vec![vec![], vec![ProtocolField { attributes: vec![], shape: shape(ProtocolType::Never) }]];
    assert!(!valid_shape(&shape(ProtocolType::Enum(bad))));
    let opaque = ProtocolShape {
        ty: ProtocolType::Opaque,
        def: ProtocolDef::Optional(Box::new(shape(ProtocolType::Float))),
        size: None,
    };
    assert!(valid_shape(&opaque));
    assert!(!valid_shape(&shape(ProtocolType::Opaque)));
}

#[test]
fn part_names() {
    assert_eq!(PartialValue::U16(true).name(), "U16");
    assert_eq!(PartialValue::VecBytes.name(), "VecBytes");
    assert_eq!(PartialValue::Length.name(), "Length");
}

fn integer_shape(layout: usize, name: &str) -> ShapeModel {
    ShapeModel {
        def: ShapeDef::Scalar,
        ty: ShapeType::Integer,
        layout: Some(layout),
        type_identifier: name.to_string(),
    }
}

fn admits(hint: TypeSizeHint, n: usize) -> bool {
    hint.minimum().map_or(true, |m| m <= n) && hint.maximum().map_or(true, |m| n <= m)
}

#[test]
fn size_hint_admits_encoding() {
    let array = ShapeModel {
        def: ShapeDef::Array(Box::new(integer_shape(4, "u32")), 2),
        ty: ShapeType::Array(Box::new(integer_shape(4, "u32")), 2),
        layout: Some(8),
        type_identifier: "[u32; 2]".to_string(),
    };
    let hint = calculate_shape_hint(&array, None);
    assert_eq!(hint, TypeSizeHint::Exact { size: 8 });
    let bytes = to_vec(&Value::Array(vec![Value::U32(1), Value::U32(0xdead_beef)])).unwrap();
    assert_eq!(bytes.len(), 8);

    let option = ShapeModel {
        def: ShapeDef::Optional(Box::new(integer_shape(2, "u16"))),
        ty: ShapeType::Opaque,
        layout: Some(4),
        type_identifier: "Option".to_string(),
    };
    let hint = calculate_shape_hint(&option, None);
    assert_eq!(hint, TypeSizeHint::Range { min: 1, max: Some(3) });
    let none = to_vec(&Value::Optional(None)).unwrap();
    let some = to_vec(&Value::Optional(Some(Box::new(Value::U16(5))))).unwrap();
    assert_eq!((none.len(), some.len()), (1, 3));
    assert!(admits(hint, none.len()) && admits(hint, some.len()));

    let list = ShapeModel {
        def: ShapeDef::List(Box::new(integer_shape(1, "u8"))),
        ty: ShapeType::Opaque,
        layout: Some(24),
        type_identifier: "Vec".to_string(),
    };
    let hint = calculate_shape_hint(&list, None);
    assert_eq!(hint, TypeSizeHint::Range { min: 1, max: None });
    let empty = to_vec(&Value::Bytes(Vec::new())).unwrap();
    assert_eq!(empty, vec![0]);
    assert!(admits(hint, empty.len()));
}
