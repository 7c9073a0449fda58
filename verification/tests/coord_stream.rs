//! Streams of tuples.
use polydat::comprehension::ast::Comprehension;
use polydat::comprehension::source::{LiteralValue, Source};
use polydat::comprehension::surfaces::compile;
use polydat::comprehension::tuple::{Tuple, TupleValue};

fn clause(name: &str, vs: &[i64]) -> Comprehension {
    Comprehension::clause(
        name,
        Source::Literal {
            values: vs.iter().map(|n| LiteralValue::Int(*n)).collect(),
        },
    )
}

#[test]
fn advance_returns_tuples_then_none() {
    let compiled = compile(&clause("k", &[1, 2, 3]));
    let mut stream = compiled.coordinate_stream();
    assert!(stream.advance().is_some());
    assert!(stream.advance().is_some());
    assert!(stream.advance().is_some());
    assert!(stream.advance().is_none());
    assert!(stream.advance().is_none()); // exhausted
}

#[test]
fn iterator_collect() {
    let compiled = compile(&clause("k", &[10, 20, 30]));
    let mut stream = compiled.coordinate_stream();
    let tuples: Vec<Tuple> = stream.collect();
    assert_eq!(tuples.len(), 3);
    assert_eq!(tuples[0].bindings[0].1, TupleValue::I64(10));
    assert_eq!(tuples[2].bindings[0].1, TupleValue::I64(30));
}

#[test]
fn iterator_take_truncates() {
    let compiled = compile(&clause("k", &[1, 2, 3, 4, 5]));
    let mut stream = compiled.coordinate_stream();
    let mut tuples: Vec<Tuple> = Vec::new();
    while tuples.len() < 2 {
        match stream.advance() {
            Some(t) => tuples.push(t),
            None => break,
        }
    }
    assert_eq!(tuples.len(), 2);
}
