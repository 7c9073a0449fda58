//! Programs, run.
use polydat::comprehension::ast::Comprehension;
use polydat::comprehension::ir::compile::compile;
use polydat::comprehension::ir::interpreter::{interpret, Stream, TupleStream};
use polydat::comprehension::source::{LiteralValue, Source};
use polydat::comprehension::strategy::{StrategyName, ZipMode};
use polydat::comprehension::tuple::{Tuple, TupleValue};

fn clause(name: &str, vs: &[i64]) -> Comprehension {
    Comprehension::clause(
        name,
        Source::Literal {
            values: vs.iter().map(|n| LiteralValue::Int(*n)).collect(),
        },
    )
}

fn collect(stream: &mut Stream) -> Vec<Tuple> {
    let mut out = Vec::new();
    while let Some(t) = stream.advance() {
        out.push(t);
    }
    out
}

#[test]
fn single_clause_dispense() {
    let ast = clause("k", &[1, 2, 3]);
    let prog = compile(&ast);
    let mut stream = interpret(&prog);
    let tuples = collect(&mut stream);
    assert_eq!(tuples.len(), 3);
    assert_eq!(tuples[0].bindings[0].1, TupleValue::I64(1));
    assert_eq!(tuples[2].bindings[0].1, TupleValue::I64(3));
}

#[test]
fn cartesian_2d_lex_order() {
    let ast = Comprehension::cartesian(vec![clause("a", &[1, 2]), clause("b", &[10, 20])]);
    let prog = compile(&ast);
    let mut stream = interpret(&prog);
    let tuples = collect(&mut stream);
    assert_eq!(tuples.len(), 4);
    // Lex: (a=1, b=10), (a=1, b=20), (a=2, b=10), (a=2, b=20)
    assert_eq!(tuples[0].bindings[0].1, TupleValue::I64(1));
    assert_eq!(tuples[0].bindings[1].1, TupleValue::I64(10));
    assert_eq!(tuples[1].bindings[1].1, TupleValue::I64(20));
    assert_eq!(tuples[2].bindings[0].1, TupleValue::I64(2));
}

#[test]
fn zip_strict_3() {
    let ast = Comprehension::zip(
        vec![clause("x", &[1, 2, 3]), clause("y", &[10, 20, 30])],
        ZipMode::Strict,
    );
    let prog = compile(&ast);
    let mut stream = interpret(&prog);
    let tuples = collect(&mut stream);
    assert_eq!(tuples.len(), 3);
    assert_eq!(tuples[0].bindings[0].1, TupleValue::I64(1));
    assert_eq!(tuples[0].bindings[1].1, TupleValue::I64(10));
    assert_eq!(tuples[2].bindings[1].1, TupleValue::I64(30));
}

#[test]
fn zip_truncate_shortest() {
    let ast = Comprehension::zip(
        vec![clause("x", &[1, 2, 3, 4]), clause("y", &[10, 20])],
        ZipMode::Truncate,
    );
    let prog = compile(&ast);
    let mut stream = interpret(&prog);
    let tuples = collect(&mut stream);
    assert_eq!(tuples.len(), 2);
}

#[test]
fn union_drains_in_order() {
    let ast = Comprehension::union(vec![clause("k", &[1, 2]), clause("k", &[10, 20])]);
    let prog = compile(&ast);
    let mut stream = interpret(&prog);
    let tuples = collect(&mut stream);
    assert_eq!(tuples.len(), 4);
    assert_eq!(tuples[0].bindings[0].1, TupleValue::I64(1));
    assert_eq!(tuples[2].bindings[0].1, TupleValue::I64(10));
}

#[test]
fn filter_keeps_only_matching() {
    let cart = Comprehension::cartesian(vec![clause("k", &[1, 2, 3, 4, 5])]);
    let ast = Comprehension::filter(cart, "{k} > 2");
    let prog = compile(&ast);
    let mut stream = interpret(&prog);
    let tuples = collect(&mut stream);
    assert_eq!(tuples.len(), 3);
    for t in &tuples {
        match t.bindings[0].1 {
            TupleValue::I64(n) => assert!(n > 2),
            _ => panic!(),
        }
    }
}

#[test]
fn order_streaming_lex_truncates() {
    let ast = Comprehension::order(clause("k", &[1, 2, 3, 4, 5]), StrategyName::Lex, Some(2));
    let prog = compile(&ast);
    let mut stream = interpret(&prog);
    let tuples = collect(&mut stream);
    assert_eq!(tuples.len(), 2);
    assert_eq!(tuples[0].bindings[0].1, TupleValue::I64(1));
    assert_eq!(tuples[1].bindings[0].1, TupleValue::I64(2));
}

#[test]
fn order_materialize_shuffle_produces_full_set() {
    let ast = Comprehension::order(clause("k", &[1, 2, 3, 4, 5]), StrategyName::Shuffle, None);
    let prog = compile(&ast);
    let mut stream = interpret(&prog);
    let tuples = collect(&mut stream);
    assert_eq!(tuples.len(), 5);
    // All original values must be present (just permuted).
    let mut sorted: Vec<i64> = tuples
        .iter()
        .map(|t| match t.bindings[0].1 {
            TupleValue::I64(n) => n,
            _ => panic!(),
        })
        .collect();
    sorted.sort();
    assert_eq!(sorted, vec![1, 2, 3, 4, 5]);
}

#[test]
fn dispense_sequence_for_section_11_1() {
    // Every combination of (k in 1..=2) and (b in 10..=20 step 10).
    let ast = Comprehension::cartesian(vec![clause("k", &[1, 2]), clause("b", &[10, 20])]);
    let prog = compile(&ast);
    let mut stream = interpret(&prog);
    let tuples = collect(&mut stream);
    // 2 × 2 = 4 tuples in Lex.
    assert_eq!(tuples.len(), 4);
}
