//! The reversed order.
use polydat::comprehension::cardinality::{Interval, ProductMeasure};
use polydat::comprehension::metadata::IndexFn;
use polydat::comprehension::strategies::reverse_lex::{reverse_lex_multi_indices, ReverseLex};
use polydat::comprehension::strategies::{EvaluatedInput, Strategy};
use polydat::comprehension::tuple::{Tuple, TupleValue};
use polydat::float::Float64;

fn double(x: f64) -> Float64 {
    Float64 { bits: x.to_bits() }
}

fn tup(k: i64) -> Tuple {
    Tuple::new().with("k", TupleValue::I64(k))
}

fn input_with(tuples: Vec<Tuple>) -> EvaluatedInput {
    let n = tuples.len() as u64;
    EvaluatedInput {
        tuples,
        cardinality: n,
        index_fn: IndexFn::Lattice { axis_sizes: vec![n] },
    }
}

#[test]
fn apply_reverses() {
    let inp = input_with(vec![tup(1), tup(2), tup(3)]);
    let out = ReverseLex.apply(&inp, None);
    assert_eq!(out, vec![tup(3), tup(2), tup(1)]);
}

#[test]
fn apply_truncates_after_reverse() {
    let inp = input_with(vec![tup(1), tup(2), tup(3), tup(4)]);
    let out = ReverseLex.apply(&inp, Some(2));
    assert_eq!(out, vec![tup(4), tup(3)]);
}

#[test]
fn reverse_lex_multi_indices_2d() {
    let idx = IndexFn::Lattice { axis_sizes: vec![2, 2] };
    let out = reverse_lex_multi_indices(&idx, None);
    // Lex of 2x2: (0,0), (0,1), (1,0), (1,1). Reverse:
    assert_eq!(out, vec![vec![1, 1], vec![1, 0], vec![0, 1], vec![0, 0]]);
}

#[test]
fn accepts_discrete_only() {
    assert!(ReverseLex.accepts_input(Some(&IndexFn::Lattice { axis_sizes: vec![3] })));
    assert!(!ReverseLex.accepts_input(Some(&IndexFn::Continuous {
        intervals: vec![Interval::closed(double(0.0), double(1.0))],
        measure: ProductMeasure::Uniform,
    })));
    assert!(!ReverseLex.accepts_input(None));
}
