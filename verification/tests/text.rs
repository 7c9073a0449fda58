//! Comprehensions in YAML and JSON text.
use polydat::comprehension::ast::Comprehension as AlgebraAst;
use polydat::comprehension::spec::text::{parse_text, TextParseError};
use polydat::comprehension::strategy::StrategyName;

#[test]
fn yaml_text_block() {
    let text = r#"
        for: "k in 1..10, limit in [10, 100]"
        where: "{k} > 0"
        order: "halton/20"
    "#;
    let algebra = parse_text(text).unwrap();
    match algebra {
        AlgebraAst::Order {
            strategy: StrategyName::Halton,
            truncation: Some(20),
            ..
        } => {}
        other => panic!("expected Order(Halton, Some(20)), got {other:?}"),
    }
}

#[test]
fn json_text_block() {
    let text = r#"
        {
            "for": "k in 1..10",
            "order": "lex/5"
        }
    "#;
    let algebra = parse_text(text).unwrap();
    match algebra {
        AlgebraAst::Order {
            strategy: StrategyName::Lex,
            truncation: Some(5),
            ..
        } => {}
        other => panic!("expected Order(Lex, Some(5)), got {other:?}"),
    }
}

#[test]
fn json_union_form() {
    let text = r#"{
        "for": [
            ["k in 10",  "limit in [1, 2, 3]"],
            ["k in 100", "limit in [10, 20, 30]"]
        ]
    }"#;
    let algebra = parse_text(text).unwrap();
    match algebra {
        AlgebraAst::Union { children } => assert_eq!(children.len(), 2),
        other => panic!("expected Union, got {other:?}"),
    }
}

#[test]
fn malformed_yaml_surfaces_error() {
    let text = r#"
        for: [unterminated
    "#;
    let err = parse_text(text).unwrap_err();
    assert!(matches!(err, TextParseError::Yaml(_)));
}

#[test]
fn malformed_json_surfaces_error() {
    let text = r#"{ "for": "k in 1..10", oops }"#;
    let err = parse_text(text).unwrap_err();
    assert!(matches!(err, TextParseError::Json(_)));
}

#[test]
fn convert_error_surfaces() {
    let text = r#"
        for: "k in 1..10"
        order: "garbage(((not valid"
    "#;
    let err = parse_text(text).unwrap_err();
    assert!(matches!(err, TextParseError::Convert(_)));
}

#[test]
fn a_document_of_another_shape_is_an_error() {
    let e = parse_text("- 1\n- 2\n").unwrap_err();
    assert_eq!(
        e.to_string(),
        "YAML parse error: expected an object with `for`, and texts under `where` and `order`"
    );
    let e = parse_text("{\"for\": \"k in \"}").unwrap_err();
    assert!(matches!(e, TextParseError::Convert(_)), "{e:?}");
}

#[test]
fn both_languages_give_the_same_comprehension() {
    let yaml = parse_text("for: \"k in 1..4, j in [1, 2]\"\nwhere: \"{k} > 1\"\n").unwrap();
    let json = parse_text("{\"for\": \"k in 1..4, j in [1, 2]\", \"where\": \"{k} > 1\"}").unwrap();
    assert_eq!(yaml, json);
}
