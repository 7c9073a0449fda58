//! Flattening.
use polydat::comprehension::ast::Comprehension;
use polydat::comprehension::optimize::r0b_flatten::apply;
use polydat::comprehension::source::{LiteralValue, Source};

fn clause(name: &str, vs: &[i64]) -> Comprehension {
    Comprehension::clause(
        name,
        Source::Literal {
            values: vs.iter().map(|n| LiteralValue::Int(*n)).collect(),
        },
    )
}

#[test]
fn flatten_left_nested_union() {
    let inner = Comprehension::union(vec![clause("a", &[1]), clause("b", &[2])]);
    let ast = Comprehension::union(vec![inner, clause("c", &[3])]);
    let result = apply(&ast).unwrap();
    match result {
        Comprehension::Union { children } => {
            assert_eq!(children.len(), 3);
            // Each child is a clause; ordering preserved.
            assert!(matches!(&children[0], Comprehension::Clause { name, .. } if name == "a"));
            assert!(matches!(&children[2], Comprehension::Clause { name, .. } if name == "c"));
        }
        other => panic!("expected Union, got {other:?}"),
    }
}

#[test]
fn flatten_right_nested_cartesian() {
    let inner = Comprehension::cartesian(vec![clause("b", &[2]), clause("c", &[3])]);
    let ast = Comprehension::cartesian(vec![clause("a", &[1]), inner]);
    let result = apply(&ast).unwrap();
    match result {
        Comprehension::Cartesian { children } => {
            assert_eq!(children.len(), 3);
        }
        other => panic!("expected Cartesian, got {other:?}"),
    }
}

#[test]
fn does_not_flatten_unrelated_combinator() {
    // union containing a cartesian — different operators
    // don't flatten into each other.
    let inner = Comprehension::cartesian(vec![clause("b", &[1]), clause("c", &[2])]);
    let ast = Comprehension::union(vec![inner, clause("a", &[1])]);
    assert!(apply(&ast).is_none());
}

#[test]
fn does_not_flatten_already_flat() {
    let ast = Comprehension::cartesian(vec![clause("a", &[1]), clause("b", &[2])]);
    assert!(apply(&ast).is_none());
}
