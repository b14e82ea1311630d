use protoconf::parse::{expect, expect_char, parse_identifier, parse_named_object, parse_object,
    parse_over_delimiter, parse_over_delimiter_char, parse_string_literal, parse_reference,
    parse_while, skip, skip_char, Compound, Identifier, NamedObjects, Object, ParseError,
    Reference};

// Object is not designed to be instantiated, but only to be parsed,
// thus this is not a constructor but a test-helper
fn compound_with_prototype_and_overrides<'s>(
    prototype: Vec<&'s str>,
    overrides: Vec<(&'s str, Object<'s>)>,
) -> Object<'s> {
    Object::Compound(Compound {
        prototype: Reference {
            identifiers: prototype.into_iter().map(|name| Identifier { name }).collect(),
        },
        overrides: NamedObjects {
            entries: overrides
                .into_iter()
                .map(|(name, object)| (Identifier { name }, object))
                .collect(),
        },
    })
}

fn compound_with_prototype(prototype: Vec<&str>) -> Object {
    compound_with_prototype_and_overrides(prototype, vec![])
}

fn empty_compound() -> Object<'static> {
    compound_with_prototype(vec![])
}

#[test]
fn test_skip_symbol() {
    assert_eq!(skip("{}", '{'), Some("}"));
    assert_eq!(skip("{}", 'x'), None);

    assert_eq!(skip(" {}", '{'), Some("}"));
    assert_eq!(skip(" \n\t {}", '{'), Some("}"));

    assert_eq!(skip("", '{'), None);
    assert_eq!(skip("", 'x'), None);

    assert_eq!(skip(" ", 'x'), None);
    assert_eq!(skip("x", 'x'), Some(""));
    assert_eq!(skip(" \nx", 'x'), Some(""));
    assert_eq!(skip(" \nx ", 'x'), Some(" "));
    assert_eq!(skip_char(" \nx ", 'x'), None);
}

#[test]
fn test_expect_symbol() {
    assert_eq!(expect("{}", '{'), Ok("}"));

    assert_eq!(
        expect("{}", 'x'),
        Err(ParseError::UnexpectedSymbol { expected: Some('x'), found: "{}" })
    );

    assert_eq!(expect(" {}", '{'), Ok("}"));
    assert_eq!(expect(" \n\t {}", '{'), Ok("}"));

    assert_eq!(expect("x", 'x'), Ok(""));
    assert_eq!(expect(" \nx", 'x'), Ok(""));

    assert_eq!(
        expect_char(" \nx", 'x'),
        Err(ParseError::UnexpectedSymbol { expected: Some('x'), found: " \nx" })
    );

    assert_eq!(expect(" \nx ", 'x'), Ok(" "));
}

#[test]
fn test_parse_over_delimiter() {
    assert_eq!(parse_over_delimiter("x|z", '|'), Ok(("x", "z")));
    assert_eq!(parse_over_delimiter("|", '|'), Ok(("", "")));
    assert_eq!(parse_over_delimiter("xx|zz", '|'), Ok(("xx", "zz")));
    assert_eq!(parse_over_delimiter("xx||z", '|'), Ok(("xx", "|z")));
    assert_eq!(parse_over_delimiter("|||", '|'), Ok(("", "||")));

    assert_eq!(parse_over_delimiter(" | ", '|'), Ok(("", " ")));
    assert_eq!(parse_over_delimiter_char(" | ", '|'), Ok((" ", " ")));

    assert_eq!(
        parse_over_delimiter("xxzz", '|'),
        Err(ParseError::UnexpectedEndOfInput { expected: Some('|') })
    );
    assert_eq!(
        parse_over_delimiter("", '|'),
        Err(ParseError::UnexpectedEndOfInput { expected: Some('|') })
    );
    assert_eq!(
        parse_over_delimiter("   ", '|'),
        Err(ParseError::UnexpectedEndOfInput { expected: Some('|') })
    );
    assert_eq!(
        parse_over_delimiter_char("   ", '|'),
        Err(ParseError::UnexpectedEndOfInput { expected: Some('|') })
    );
}

#[test]
fn test_parse_while() {
    assert_eq!(parse_while("xy", |c| c != 'y'), ("x", "y"));
    assert_eq!(parse_while("\n xy", |c| c != 'y'), ("x", "y"));
    assert_eq!(parse_while("xyz", |_c| true), ("xyz", ""));
    assert_eq!(parse_while("xyz", |_c| false), ("", "xyz"));
    assert_eq!(parse_while("", |_c| true), ("", ""));
    assert_eq!(parse_while("", |_c| false), ("", ""));

    assert_eq!(parse_while("9b", |c| c.is_numeric()), ("9", "b"));
    assert_eq!(parse_while(" 9 b", |c| c.is_numeric()), ("9", " b"));
    assert_eq!(parse_while(" x", |c| c.is_numeric()), ("", "x"));
}

#[test]
fn test_parse_string_literal() {
    assert_eq!(parse_string_literal("xy"), Ok((None, "xy")));
    assert_eq!(parse_string_literal(" \n xy "), Ok((None, " \n xy ")));
    assert_eq!(parse_string_literal("' \n xy '"), Ok((Some(" \n xy "), "")));
    assert_eq!(parse_string_literal(" \n 'xy' "), Ok((Some("xy"), " ")));

    assert_eq!(
        parse_string_literal("'pls nooooo"),
        Err(ParseError::UnexpectedEndOfInput { expected: Some('\'') })
    );
    assert_eq!(
        parse_string_literal(" \n'\"pls nooooo\""),
        Err(ParseError::UnexpectedEndOfInput { expected: Some('\'') })
    );
}

#[test]
fn test_parse_identifier() {
    assert_eq!(parse_identifier("x$%&?/(|="), (Identifier { name: "x" }, "$%&?/(|="));
    assert_eq!(parse_identifier("xy "), (Identifier { name: "xy" }, " "));
    assert_eq!(parse_identifier(" xy "), (Identifier { name: "xy" }, " "));
    assert_eq!(parse_identifier(" xy9 "), (Identifier { name: "xy9" }, " "));
    assert_eq!(parse_identifier("xy9"), (Identifier { name: "xy9" }, ""));
    assert_eq!(parse_identifier(" 9 "), (Identifier { name: "9" }, " "));
    assert_eq!(parse_identifier("x\u{a7}"), (Identifier { name: "x" }, "\u{a7}"));
}

#[test]
fn test_parse_reference() {
    assert_eq!(
        parse_reference("x"),
        (Reference { identifiers: vec![Identifier { name: "x" }] }, "")
    );
    assert_eq!(
        parse_reference("x.y"),
        (
            Reference { identifiers: vec![Identifier { name: "x" }, Identifier { name: "y" }] },
            ""
        )
    );

    assert_eq!(
        parse_reference("x.y.$"),
        (
            Reference { identifiers: vec![Identifier { name: "x" }, Identifier { name: "y" }] },
            "$"
        )
    );

    assert_eq!(
        parse_reference(" x . y . $ "),
        (
            Reference { identifiers: vec![Identifier { name: "x" }, Identifier { name: "y" }] },
            "$ "
        )
    );

    assert_eq!(parse_reference(" "), (Reference { identifiers: vec![] }, ""));
}

#[test]
fn test_parse_flat_value() {
    assert_eq!(parse_object("'xyz'"), Ok((Object::StringLiteral("xyz"), "")));
    assert_eq!(parse_object(" 'xyz' "), Ok((Object::StringLiteral("xyz"), " ")));
    assert_eq!(parse_object("div"), Ok((compound_with_prototype(vec!["div"]), "")));
    assert_eq!(parse_object(" div!"), Ok((compound_with_prototype(vec!["div"]), "!")));
    assert_eq!(parse_object("div{}"), Ok((compound_with_prototype(vec!["div"]), "")));
    assert_eq!(parse_object(" div { } "), Ok((compound_with_prototype(vec!["div"]), " ")));
    assert_eq!(parse_object(""), Ok((empty_compound(), "")));
}

#[test]
fn test_parse_flat_named_object() {
    assert_eq!(
        parse_named_object(" text: 'xyz' "),
        Ok((Identifier { name: "text" }, Object::StringLiteral("xyz"), " "))
    );

    assert_eq!(
        parse_named_object(" text: div { } "),
        Ok((Identifier { name: "text" }, compound_with_prototype(vec!["div"]), " "))
    );
}

#[test]
fn test_parse_nested_object() {
    assert_eq!(
        parse_named_object(" my_div: div { text: 'xy z' } "),
        Ok((
            Identifier { name: "my_div" },
            compound_with_prototype_and_overrides(
                vec!["div"],
                vec![("text", Object::StringLiteral("xy z"))],
            ),
            " "
        ))
    );

    assert_eq!(
        parse_named_object(" my_div: div { text: 'xy z' content: default {} } "),
        Ok((
            Identifier { name: "my_div" },
            compound_with_prototype_and_overrides(
                vec!["div"],
                vec![
                    ("text", Object::StringLiteral("xy z")),
                    ("content", compound_with_prototype(vec!["default"])),
                ],
            ),
            " "
        ))
    );

    assert_eq!(
        parse_named_object(" my_div: div { text: 'xy z' "),
        Err(ParseError::UnexpectedEndOfInput { expected: Some('}') })
    );
}

#[test]
fn test_parse_empty_document() {
    let parsed = protoconf::parse::parse("").expect("Parsing Error");
    assert_eq!(parsed, NamedObjects { entries: vec![] });

    let blank = protoconf::parse::parse(" \n\t ").expect("Parsing Error");
    assert_eq!(blank, NamedObjects { entries: vec![] });
}

#[test]
fn test_parse_missing_colon() {
    assert_eq!(
        protoconf::parse::parse("a"),
        Err(ParseError::UnexpectedSymbol { expected: Some(':'), found: "" })
    );
    assert_eq!(
        protoconf::parse::parse("a ; b"),
        Err(ParseError::UnexpectedSymbol { expected: Some(':'), found: "; b" })
    );
}

#[test]
fn test_reference_has_target() {
    let absent = Reference { identifiers: vec![] };
    assert!(!absent.has_target());

    let empty_name = Reference { identifiers: vec![Identifier { name: "" }] };
    assert!(!empty_name.has_target());

    let named = Reference { identifiers: vec![Identifier { name: "x" }] };
    assert!(named.has_target());
}
