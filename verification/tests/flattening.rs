use protoconf::flat::FlatObject;
use protoconf::parse::{parse, Identifier, Object, ParseError, Reference, ResolveError};

fn literal(text: &str) -> FlatObject {
    FlatObject::StringLiteral(String::from(text))
}

// Properties are listed in the order the flattening engine fills them:
// a compound's own overrides in declaration order, then what it inherits,
// walking up the prototype chain.
fn compound(properties: Vec<(&str, FlatObject)>) -> FlatObject {
    FlatObject::Compound(
        properties.into_iter().map(|(name, object)| (String::from(name), object)).collect(),
    )
}

#[test]
fn test_build_flat_object() {
    assert_eq!(
        FlatObject::parse(" color: ' #abc ' ").expect("Parsing Error").expect("Resolve Error"),
        compound(vec![("color", literal(" #abc "))])
    );

    assert_eq!(
        FlatObject::parse(
            r#"

                default_color: { r:'0' g:'0' b:'0' }
                red: default_color { r:'1' }

            "#
        )
        .expect("Parsing Error")
        .expect("Resolve Error"),
        compound(vec![
            (
                "default_color",
                compound(vec![("r", literal("0")), ("g", literal("0")), ("b", literal("0"))])
            ),
            ("red", compound(vec![("r", literal("1")), ("g", literal("0")), ("b", literal("0"))]))
        ])
    );

    assert_eq!(
        FlatObject::parse(
            r#"
                ok_text: 'Ok'

                Button: {
                    visible: 'true'
                    text: 'Click Here'
                }

                ok_button: Button { text: ok_text }

            "#
        )
        .expect("Parsing Error")
        .expect("Resolve Error"),
        compound(vec![
            ("ok_text", literal("Ok")),
            ("Button", compound(vec![("visible", literal("true")), ("text", literal("Click Here"))])),
            ("ok_button", compound(vec![("text", literal("Ok")), ("visible", literal("true"))]))
        ])
    );

    assert_eq!(
        FlatObject::parse(
            r#"
                text: {
                    cancel: {
                        german: 'Abbrechen'
                    }
                }

                cancel_button: {
                    text: text.cancel.german
                }

            "#
        )
        .expect("Parsing Error")
        .expect("Resolve Error"),
        compound(vec![
            ("text", compound(vec![("cancel", compound(vec![("german", literal("Abbrechen"))]))])),
            ("cancel_button", compound(vec![("text", literal("Abbrechen"))])),
        ])
    );

    assert_eq!(
        FlatObject::parse(
            r#"
                text: 'herbert'
                text2: text1
            "#
        )
        .expect("Parsing Error"),
        Err(ResolveError::ReferenceNotFound(Identifier { name: "text1" }))
    );
}

#[test]
fn test_round_trip_on_literal() {
    assert_eq!(
        FlatObject::parse("name: 'hello world'").expect("Parsing Error").expect("Resolve Error"),
        compound(vec![("name", literal("hello world"))])
    );

    // the empty literal round-trips too
    assert_eq!(
        FlatObject::parse("name: ''").expect("Parsing Error").expect("Resolve Error"),
        compound(vec![("name", literal(""))])
    );
}

#[test]
fn test_first_match_wins() {
    let parsed = parse("a:'1' a:'2'").expect("Parsing Error");
    let reference = Reference { identifiers: vec![Identifier { name: "a" }] };
    assert_eq!(parsed.resolve_reference(&reference), Ok(&Object::StringLiteral("1")));

    // resolution keeps only the first occurrence
    assert_eq!(
        FlatObject::build_from_parsed(&parsed).expect("Resolve Error"),
        compound(vec![("a", literal("1"))])
    );
}

#[test]
fn test_override_precedence() {
    assert_eq!(
        FlatObject::parse("base: { x: '0' y: '0' } derived: base { x: '1' }")
            .expect("Parsing Error")
            .expect("Resolve Error"),
        compound(vec![
            ("base", compound(vec![("x", literal("0")), ("y", literal("0"))])),
            ("derived", compound(vec![("x", literal("1")), ("y", literal("0"))])),
        ])
    );
}

#[test]
fn test_alias_inlining() {
    assert_eq!(
        FlatObject::parse("greeting: 'Ok' alias: greeting")
            .expect("Parsing Error")
            .expect("Resolve Error"),
        compound(vec![("greeting", literal("Ok")), ("alias", literal("Ok"))])
    );
}

#[test]
fn test_dotted_reference_into_explicit_override() {
    assert_eq!(
        FlatObject::parse(
            "text: { cancel: { german: 'Abbrechen' } } button: { text: text.cancel.german }"
        )
        .expect("Parsing Error")
        .expect("Resolve Error"),
        compound(vec![
            ("text", compound(vec![("cancel", compound(vec![("german", literal("Abbrechen"))]))])),
            ("button", compound(vec![("text", literal("Abbrechen"))])),
        ])
    );
}

#[test]
fn test_dotted_reference_sees_no_inherited_property() {
    // dotted lookup descends into declared overrides only, never into what
    // a compound merely inherits
    assert_eq!(
        FlatObject::parse("base: { x: '1' } child: base {} other: child.x")
            .expect("Parsing Error"),
        Err(ResolveError::ReferenceNotFound(Identifier { name: "x" }))
    );
}

#[test]
fn test_missing_reference_surfaces_precisely() {
    assert_eq!(
        FlatObject::parse("text: 'x' other: undeclared_name").expect("Parsing Error"),
        Err(ResolveError::ReferenceNotFound(Identifier { name: "undeclared_name" }))
    );
}

#[test]
fn test_reference_into_string_literal_fails() {
    assert_eq!(
        FlatObject::parse("a: 'x' b: a.c").expect("Parsing Error"),
        Err(ResolveError::StringLiteralHasNoProperties)
    );
}

#[test]
fn test_unterminated_structures() {
    assert_eq!(
        FlatObject::parse("a: { b: 'x' "),
        Err(ParseError::UnexpectedEndOfInput { expected: Some('}') })
    );
    assert_eq!(
        FlatObject::parse("a: 'unterminated"),
        Err(ParseError::UnexpectedEndOfInput { expected: Some('\'') })
    );
}

#[test]
fn test_resolution_is_repeatable() {
    let parsed = parse("base: { x: '0' } derived: base { y: '1' }").expect("Parsing Error");
    let first = FlatObject::build_from_parsed(&parsed).expect("Resolve Error");
    let second = FlatObject::build_from_parsed(&parsed).expect("Resolve Error");
    assert_eq!(first, second);
}

#[test]
fn test_cyclic_references_are_reported() {
    assert_eq!(
        FlatObject::parse("a: b b: a").expect("Parsing Error"),
        Err(ResolveError::CyclicReference)
    );
    assert_eq!(
        FlatObject::parse("a: a").expect("Parsing Error"),
        Err(ResolveError::CyclicReference)
    );
    assert_eq!(
        FlatObject::parse("a: b { x: '1' } b: a { y: '2' }").expect("Parsing Error"),
        Err(ResolveError::CyclicReference)
    );
}

#[test]
fn test_literal_prototype_contributes_nothing() {
    // a prototype that resolves to a string literal adds no properties
    assert_eq!(
        FlatObject::parse("a: 'txt' b: a { y: '2' }")
            .expect("Parsing Error")
            .expect("Resolve Error"),
        compound(vec![("a", literal("txt")), ("b", compound(vec![("y", literal("2"))]))])
    );
}

#[test]
fn test_empty_document_resolves_to_empty_compound() {
    assert_eq!(
        FlatObject::parse("").expect("Parsing Error").expect("Resolve Error"),
        compound(vec![])
    );
}

#[test]
fn test_deep_prototype_chain() {
    assert_eq!(
        FlatObject::parse("a: { x: '0' } b: a { y: '1' } c: b { z: '2' }")
            .expect("Parsing Error")
            .expect("Resolve Error"),
        compound(vec![
            ("a", compound(vec![("x", literal("0"))])),
            ("b", compound(vec![("y", literal("1")), ("x", literal("0"))])),
            ("c", compound(vec![("z", literal("2")), ("y", literal("1")), ("x", literal("0"))])),
        ])
    );
}
