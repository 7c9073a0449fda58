//! Commuting.
use polydat::comprehension::ast::Comprehension;
use polydat::comprehension::optimize::r3_commute::apply;
use polydat::comprehension::source::{LiteralValue, Source};
use polydat::comprehension::strategy::StrategyName;

fn clause(name: &str, vs: &[i64]) -> Comprehension {
    Comprehension::clause(
        name,
        Source::Literal {
            values: vs.iter().map(|n| LiteralValue::Int(*n)).collect(),
        },
    )
}

#[test]
fn r3_commutes_lex_none_with_filter() {
    let inner = clause("k", &[1, 2, 3]);
    let filtered = Comprehension::filter(inner.copy(), "{k} > 0");
    let ast = Comprehension::order(filtered, StrategyName::Lex, None);
    let result = apply(&ast).unwrap();
    match result {
        Comprehension::Filter { child, predicate } => {
            assert_eq!(predicate, "{k} > 0");
            match child.as_ref() {
                Comprehension::Order { strategy: StrategyName::Lex, truncation: None, .. } => {}
                other => panic!("expected order(Lex, None) inside, got {other:?}"),
            }
        }
        other => panic!("expected outer Filter, got {other:?}"),
    }
}

#[test]
fn r3_does_not_fire_with_truncation() {
    let inner = clause("k", &[1, 2, 3]);
    let filtered = Comprehension::filter(inner, "{k} > 0");
    let ast = Comprehension::order(filtered, StrategyName::Lex, Some(2));
    assert_eq!(apply(&ast), None);
}

#[test]
fn r3_does_not_fire_for_non_lex() {
    let inner = clause("k", &[1, 2, 3]);
    let filtered = Comprehension::filter(inner, "{k} > 0");
    let ast = Comprehension::order(filtered, StrategyName::Halton, None);
    assert_eq!(apply(&ast), None);
}

#[test]
fn r3_does_not_fire_without_filter_child() {
    let inner = clause("k", &[1, 2, 3]);
    let ast = Comprehension::order(inner, StrategyName::Lex, None);
    assert_eq!(apply(&ast), None);
}
