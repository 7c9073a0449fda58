//! Bindings built without source text.
use polydat::dsl::ast::{BinOpKind, Expr, Span, Statement, WireModifier};
use polydat::dsl::stub::ExprStub;
use polydat::float::Float64;
use polydat::value::PortType;

/// Reads a name, or a name compared to a number.
fn read(src: &str) -> Result<Expr, String> {
    let at = Span { line: 1, col: 1 };
    match src.split_once(" > ") {
        None => Ok(Expr::Ident(src.to_string(), at)),
        Some((name, number)) => Ok(Expr::BinOp(
            Box::new(Expr::Ident(name.to_string(), at)),
            BinOpKind::Gt,
            Box::new(Expr::IntLit(number.parse().map_err(|_| "not a number".to_string())?, at)),
        )),
    }
}

#[test]
fn parse_stub_builds_typed_volatile_binding() {
    // A predicate parsed at the boundary, coerced to u64 truthiness,
    // marked volatile — the stop-condition stub shape.
    let stmt = ExprStub::parse("__pred", read("op_count > 50"))
        .expect("parse")
        .returning::<u64>()
        .volatile()
        .into_statement();
    match stmt {
        Statement::Binding(b) => {
            assert_eq!(b.targets, vec!["__pred".to_string()]);
            assert!(b.modifier.has(WireModifier::Volatile), "must be volatile");
            // The value is `(<comparison>) as u64` — a grammar-safe
            // Cast wrapping the parsed comparison, no string round-trip.
            assert!(matches!(b.value, Expr::Cast(_, PortType::U64, _)),
                "value must be a Cast to U64, got {:?}", b.value);
        }
        other => panic!("expected a Binding statement, got {other:?}"),
    }
}

#[test]
fn returning_binds_the_rust_generic_as_the_polydat_type() {
    // The Rust generic and the polydat target are the same: f64 here.
    let stmt = ExprStub::parse("__m", read("elapsed_ms"))
        .expect("parse")
        .returning::<Float64>()
        .into_statement();
    let Statement::Binding(b) = stmt else { panic!("expected Binding") };
    assert!(matches!(b.value, Expr::Cast(_, PortType::F64, _)));
    assert!(!b.modifier.has(WireModifier::Volatile), "no volatile unless requested");
}

