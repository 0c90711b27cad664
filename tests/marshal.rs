use wasm_bridge::marshal::{
    derive_marshaller, from_js_value, to_js_value, CaseDecl, DeclShape, Declaration, DeriveError,
    EnumType, ForeignValue, HostValue, Marshaller, ShapeMismatch,
};

fn names(v: &[&str]) -> Vec<String> {
    v.iter().map(|s| s.to_string()).collect()
}

fn case(name: &str, has_payload: bool) -> CaseDecl {
    CaseDecl { name: name.to_string(), has_payload }
}

fn decl(attributes: &[&str], shape: DeclShape) -> Declaration {
    Declaration { name: "T".to_string(), attributes: names(attributes), shape }
}

fn round_trip(m: &Marshaller, v: HostValue) {
    let f = to_js_value(m, &v);
    assert_eq!(from_js_value(m, &f), Ok(v));
}

#[test]
fn attribute_selects_kind() {
    assert_eq!(EnumType::from_attributes(&names(&["(enum)"])), Some(EnumType::Enum));
    assert_eq!(EnumType::from_attributes(&names(&["(variant)"])), Some(EnumType::Variant));
    assert_eq!(EnumType::from_attributes(&names(&["(other)", "(variant)", "(enum)"])), Some(EnumType::Variant));
    assert_eq!(EnumType::from_attributes(&names(&["enum", "(record)"])), None);
    assert_eq!(EnumType::from_attributes(&Vec::new()), None);
}

#[test]
fn enum_without_kind_is_ambiguous() {
    let d = decl(&["(record)"], DeclShape::Enum(vec![case("a", false)]));
    assert_eq!(derive_marshaller(&d), Err(DeriveError::AmbiguousEnumKind));
}

#[test]
fn derivation_follows_shape_and_kind() {
    let s = decl(&[], DeclShape::Struct(names(&["x", "y"])));
    assert_eq!(derive_marshaller(&s), Ok(Marshaller::Record(names(&["x", "y"]))));
    let e = decl(&["(enum)"], DeclShape::Enum(vec![case("red", false), case("green", false)]));
    assert_eq!(derive_marshaller(&e), Ok(Marshaller::Enumeration(names(&["red", "green"]))));
    let v = decl(&["(variant)"], DeclShape::Enum(vec![case("none", false), case("some", true)]));
    assert_eq!(
        derive_marshaller(&v),
        Ok(Marshaller::Tagged(vec![case("none", false), case("some", true)]))
    );
}

#[test]
fn structure_becomes_object_keyed_by_field() {
    let m = Marshaller::Record(names(&["x", "y"]));
    assert_eq!(
        to_js_value(&m, &HostValue::Record(vec![7, 9])),
        ForeignValue::Object(vec![("x".to_string(), 7), ("y".to_string(), 9)])
    );
}

#[test]
fn object_fields_are_read_by_name() {
    let m = Marshaller::Record(names(&["x", "y"]));
    let f = ForeignValue::Object(vec![("y".to_string(), 9), ("x".to_string(), 7)]);
    assert_eq!(from_js_value(&m, &f), Ok(HostValue::Record(vec![7, 9])));
}

#[test]
fn enumeration_and_variant_use_case_names() {
    let e = Marshaller::Enumeration(names(&["red", "green"]));
    assert_eq!(to_js_value(&e, &HostValue::Case(1, None)), ForeignValue::Text("green".to_string()));
    let v = Marshaller::Tagged(vec![case("none", false), case("some", true)]);
    assert_eq!(
        to_js_value(&v, &HostValue::Case(1, Some(5))),
        ForeignValue::Tagged("some".to_string(), Some(5))
    );
}

#[test]
fn round_trips_for_every_shape() {
    round_trip(&Marshaller::Record(Vec::new()), HostValue::Record(Vec::new()));
    round_trip(&Marshaller::Record(names(&["a", "b", "c"])), HostValue::Record(vec![1, 0, u64::MAX]));
    let e = Marshaller::Enumeration(names(&["first", "middle", "last"]));
    round_trip(&e, HostValue::Case(0, None));
    round_trip(&e, HostValue::Case(2, None));
    let v = Marshaller::Tagged(vec![case("first", true), case("middle", false), case("last", true)]);
    round_trip(&v, HostValue::Case(0, Some(3)));
    round_trip(&v, HostValue::Case(1, None));
    round_trip(&v, HostValue::Case(2, Some(4)));
}

#[test]
fn shape_mismatches_are_reported() {
    let r = Marshaller::Record(names(&["x", "y"]));
    assert_eq!(
        from_js_value(&r, &ForeignValue::Object(vec![("x".to_string(), 1)])),
        Err(ShapeMismatch::WrongFieldCount)
    );
    assert_eq!(
        from_js_value(&r, &ForeignValue::Object(vec![("x".to_string(), 1), ("z".to_string(), 2)])),
        Err(ShapeMismatch::MissingField)
    );
    assert_eq!(from_js_value(&r, &ForeignValue::Text("x".to_string())), Err(ShapeMismatch::WrongKind));
    let e = Marshaller::Enumeration(names(&["red"]));
    assert_eq!(from_js_value(&e, &ForeignValue::Text("blue".to_string())), Err(ShapeMismatch::UnknownCase));
    let v = Marshaller::Tagged(vec![case("none", false), case("some", true)]);
    assert_eq!(
        from_js_value(&v, &ForeignValue::Tagged("other".to_string(), None)),
        Err(ShapeMismatch::UnknownCase)
    );
    assert_eq!(
        from_js_value(&v, &ForeignValue::Tagged("some".to_string(), None)),
        Err(ShapeMismatch::PayloadMismatch)
    );
    assert_eq!(
        from_js_value(&v, &ForeignValue::Tagged("none".to_string(), Some(1))),
        Err(ShapeMismatch::PayloadMismatch)
    );
}
