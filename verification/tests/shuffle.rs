//! The shuffled order.
use polydat::comprehension::metadata::IndexFn;
use polydat::comprehension::strategies::lattice::linear_to_multi;
use polydat::comprehension::strategies::shuffle::{shuffle_multi_indices, Shuffle};
use polydat::comprehension::strategies::{EvaluatedInput, Strategy};
use polydat::comprehension::tuple::{copy_tuples, Tuple, TupleValue};

fn tup(k: i64) -> Tuple {
    Tuple::new().with("k", TupleValue::I64(k))
}

fn input_with(tuples: Vec<Tuple>) -> EvaluatedInput {
    let n = tuples.len() as u64;
    EvaluatedInput {
        tuples,
        cardinality: n,
        index_fn: IndexFn::Lattice { axis_sizes: vec![n] },
    }
}

#[test]
fn apply_preserves_elements() {
    let inp = input_with(vec![tup(1), tup(2), tup(3), tup(4), tup(5)]);
    let mut out = Shuffle.apply(&inp, None);
    let mut sorted_in = copy_tuples(&inp.tuples);
    out.sort_by_key(|t| match t.bindings[0].1 {
        TupleValue::I64(v) => v,
        _ => panic!(),
    });
    sorted_in.sort_by_key(|t| match t.bindings[0].1 {
        TupleValue::I64(v) => v,
        _ => panic!(),
    });
    assert_eq!(out, sorted_in);
}

#[test]
fn apply_deterministic() {
    let inp = input_with(vec![tup(1), tup(2), tup(3), tup(4), tup(5)]);
    let a = Shuffle.apply(&inp, None);
    let b = Shuffle.apply(&inp, None);
    assert_eq!(a, b);
}

#[test]
fn shuffle_multi_indices_produces_unique_discrete() {
    let idx = IndexFn::Lattice { axis_sizes: vec![3, 4] };
    let out = shuffle_multi_indices(&idx, Some(10));
    assert_eq!(out.len(), 10);
    let mut seen = std::collections::HashSet::new();
    for mi in &out {
        assert!(seen.insert(mi.clone()), "duplicate: {mi:?}");
    }
    for mi in &out {
        assert!(mi[0] < 3);
        assert!(mi[1] < 4);
    }
}

#[test]
fn shuffle_multi_indices_full_lattice() {
    let idx = IndexFn::Lattice { axis_sizes: vec![2, 2] };
    let out = shuffle_multi_indices(&idx, None);
    assert_eq!(out.len(), 4);
    let mut sorted = out.clone();
    sorted.sort();
    assert_eq!(sorted, vec![vec![0, 0], vec![0, 1], vec![1, 0], vec![1, 1]]);
}

#[test]
fn linear_to_multi_round_trip() {
    let sizes = vec![3u64, 4, 5];
    for linear in 0..60u64 {
        let mi = linear_to_multi(linear, &sizes);
        let mut back = 0u64;
        for (s, m) in sizes.iter().zip(mi.iter()) {
            back = back * s + m;
        }
        assert_eq!(back, linear);
    }
}

#[test]
fn accepts_any_non_none() {
    assert!(Shuffle.accepts_input(Some(&IndexFn::Lattice { axis_sizes: vec![3] })));
    assert!(!Shuffle.accepts_input(None));
}
