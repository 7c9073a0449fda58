//! What holds of the library as a whole, on a few values.
use polydat::comprehension::ast::Comprehension;
use polydat::comprehension::ir::compile::compile;
use polydat::comprehension::ir::condition::evaluate_predicate;
use polydat::comprehension::ir::interpreter::interpret;
use polydat::comprehension::metadata::IndexFn;
use polydat::comprehension::optimize::{r0b_flatten, r3_commute};
use polydat::comprehension::source::{split_string_comprehension, LiteralValue, Source};
use polydat::comprehension::strategies::diagonal::diagonal_multi_indices;
use polydat::comprehension::strategies::extrema::extrema_multi_indices;
use polydat::comprehension::strategies::lattice::{linear_to_multi, multi_to_linear};
use polydat::comprehension::strategies::reverse_lex::ReverseLex;
use polydat::comprehension::strategies::shuffle::shuffle_multi_indices;
use polydat::comprehension::strategies::{EvaluatedInput, Strategy};
use polydat::comprehension::strategy::StrategyName;
use polydat::comprehension::surfaces::polydat_kernel::{
    polydat_value_to_tuple_value, tuple_value_to_polydat_value,
};
use polydat::comprehension::tuple::{Tuple, TupleValue};
use polydat::dsl::registry::{edit_distance, FuncCategory};

fn clause(name: &str, vs: &[i64]) -> Comprehension {
    Comprehension::clause(
        name,
        Source::Literal { values: vs.iter().map(|n| LiteralValue::Int(*n)).collect() },
    )
}

fn tuples(c: &Comprehension) -> Vec<Tuple> {
    interpret(&compile(c)).collect()
}

#[test]
fn flattening_keeps_the_tuples() {
    let inner = Comprehension::cartesian(vec![clause("b", &[1, 2]), clause("c", &[3, 4])]);
    let ast = Comprehension::cartesian(vec![clause("a", &[5, 6]), inner]);
    let flat = r0b_flatten::apply(&ast).unwrap();
    assert_ne!(flat, ast);
    assert_eq!(tuples(&flat), tuples(&ast));
    assert_eq!(tuples(&flat).len(), 8);
}

#[test]
fn commuting_keeps_the_tuples() {
    let ast = Comprehension::order(
        Comprehension::filter(clause("k", &[3, 1, 2]), "{k} > 1"),
        StrategyName::Lex,
        None,
    );
    let other = r3_commute::apply(&ast).unwrap();
    assert_ne!(other, ast);
    assert_eq!(tuples(&other), tuples(&ast));
    assert_eq!(tuples(&other).len(), 2);
}

#[test]
fn what_is_kept_meets_the_condition() {
    let ast = Comprehension::filter(clause("k", &[1, 5, 2, 7]), "{k} > 2");
    let kept: Vec<TupleValue> =
        tuples(&ast).into_iter().map(|mut t| t.bindings.remove(0).1).collect();
    assert_eq!(kept, vec![TupleValue::I64(5), TupleValue::I64(7)]);
}

#[test]
fn a_union_drains_child_by_child() {
    let ast = Comprehension::union(vec![clause("a", &[1, 2]), clause("a", &[3])]);
    let got: Vec<TupleValue> =
        tuples(&ast).into_iter().map(|mut t| t.bindings.remove(0).1).collect();
    assert_eq!(got, vec![TupleValue::I64(1), TupleValue::I64(2), TupleValue::I64(3)]);
}

#[test]
fn reversing_twice_changes_nothing() {
    let input = |tuples: Vec<Tuple>| EvaluatedInput {
        cardinality: tuples.len() as u64,
        index_fn: IndexFn::Lattice { axis_sizes: vec![tuples.len() as u64] },
        tuples,
    };
    let made = || -> Vec<Tuple> {
        (0..5).map(|k| Tuple::new().with("k", TupleValue::I64(k))).collect()
    };
    let once = ReverseLex.apply(&input(made()), None);
    assert_eq!(ReverseLex.apply(&input(once), None), made());
}

#[test]
fn a_place_and_its_position_determine_each_other() {
    let sizes = vec![3, 4, 2];
    for i in 0..24 {
        let mi = linear_to_multi(i, &sizes);
        assert_eq!(multi_to_linear(&mi, &sizes), Some(i));
    }
}

#[test]
fn walks_visit_every_position_once() {
    let sizes = vec![3, 2, 4];
    let all: Vec<Vec<u64>> = (0..24).map(|i| linear_to_multi(i, &sizes)).collect();
    let idx = IndexFn::Lattice { axis_sizes: sizes };
    for mut walk in [
        diagonal_multi_indices(&idx, None, false),
        diagonal_multi_indices(&idx, None, true),
        extrema_multi_indices(&idx, None),
    ] {
        walk.sort();
        assert_eq!(walk, all);
    }
}

#[test]
fn sums_rise_along_a_diagonal_walk() {
    let idx = IndexFn::Lattice { axis_sizes: vec![3, 3] };
    let sums = |down: bool| -> Vec<u64> {
        diagonal_multi_indices(&idx, None, down).iter().map(|p| p.iter().sum()).collect()
    };
    assert!(sums(false).windows(2).all(|w| w[0] <= w[1]));
    assert!(sums(true).windows(2).all(|w| w[0] >= w[1]));
}

#[test]
fn a_tuple_value_comes_back_from_a_value() {
    for v in [
        TupleValue::U64(7),
        TupleValue::Bool(true),
        TupleValue::Str("a".to_string()),
    ] {
        let there = tuple_value_to_polydat_value(&v);
        assert_eq!(polydat_value_to_tuple_value(&there), Some(v));
    }
    let there = tuple_value_to_polydat_value(&TupleValue::I64(-1));
    assert_eq!(polydat_value_to_tuple_value(&there), Some(TupleValue::U64(u64::MAX)));
}

fn bound(pairs: &[(&str, i64)]) -> Tuple {
    Tuple { bindings: pairs.iter().map(|(n, v)| (n.to_string(), TupleValue::I64(*v))).collect() }
}

#[test]
fn a_negated_condition_says_the_opposite() {
    let t = bound(&[("k", 3)]);
    for p in ["{k} > 1", "true", "{k} > 1 && {k} < 3", "{k} in [1, 2]", "", "  {k} == 3 "] {
        let negated = format!("!{p}");
        assert_ne!(evaluate_predicate(p, &t), evaluate_predicate(&negated, &t), "{p}");
    }
}

#[test]
fn a_mirrored_comparison_says_the_same() {
    let pairs = [("<", ">"), ("<=", ">="), ("==", "=="), ("!=", "!="), (">", "<"), (">=", "<=")];
    for k in [2, 3, 4] {
        let t = bound(&[("k", k)]);
        for (op, mirrored) in pairs {
            let a = evaluate_predicate(&format!("3 {op} {{k}}"), &t);
            let b = evaluate_predicate(&format!("{{k}} {mirrored} 3"), &t);
            assert_eq!(a, b, "3 {op} {k}");
        }
    }
    assert!(evaluate_predicate("3 < {k}", &bound(&[("k", 4)])));
    assert!(!evaluate_predicate("3 < {k}", &bound(&[("k", 3)])));
}

#[test]
fn a_comparison_with_an_unbound_name_holds() {
    let t = bound(&[("k", 3)]);
    assert!(evaluate_predicate("{x} > 100", &t));
    assert!(evaluate_predicate("100 < {x}", &t));
    assert!(evaluate_predicate("{x} == {k}", &t));
    assert!(!evaluate_predicate("{k} > 100", &t));
}

#[test]
fn a_text_that_is_no_condition_holds() {
    let t = bound(&[("k", 1)]);
    assert!(evaluate_predicate("{k} * 2 > 100", &t));
    assert!(evaluate_predicate("anything", &t));
    assert!(!evaluate_predicate("!anything", &t));
}

#[test]
fn equal_sums_come_in_order_along_a_diagonal_walk() {
    let idx = IndexFn::Lattice { axis_sizes: vec![3, 3, 2] };
    let walk = diagonal_multi_indices(&idx, None, false);
    for pair in walk.windows(2) {
        let (a, b): (u64, u64) = (pair[0].iter().sum(), pair[1].iter().sum());
        assert!(a < b || pair[0] < pair[1], "{pair:?}");
    }
}

#[test]
fn an_uncut_shuffle_visits_every_position_once() {
    let idx = IndexFn::Lattice { axis_sizes: vec![4, 3, 2] };
    let mut walk = shuffle_multi_indices(&idx, None);
    assert_eq!(walk.len(), 24);
    walk.sort();
    walk.dedup();
    assert_eq!(walk.len(), 24);
}

#[test]
fn a_category_is_read_whatever_its_case_and_the_space_around_it() {
    for name in ["Hashing", "hashing", "HASHING", "  hAsHiNg\t"] {
        assert_eq!(FuncCategory::parse(name), Some(FuncCategory::Hashing), "{name}");
    }
    assert_eq!(FuncCategory::parse("hash ing"), None);
}

#[test]
fn tokens_that_are_joined_are_split_again() {
    let tokens = ["alpha", "7", "x_y", "a.b"];
    for sep in [",", ", ", " ", " ,\t"] {
        assert_eq!(split_string_comprehension(&tokens.join(sep)), tokens, "{sep:?}");
    }
}

#[test]
fn an_edit_distance_is_a_number_of_edits() {
    assert_eq!(edit_distance("", ""), 0);
    assert_eq!(edit_distance("", "abc"), 3);
    assert_eq!(edit_distance("hash", "hash"), 0);
    assert_eq!(edit_distance("hahs", "hash"), 2);
    assert_eq!(edit_distance("kitten", "sitting"), 3);
    let words = ["hash", "hahs", "has", "range", ""];
    for a in words {
        for b in words {
            assert_eq!(edit_distance(a, b), edit_distance(b, a));
            assert_eq!(edit_distance(a, b) == 0, a == b);
            for c in words {
                assert!(edit_distance(a, c) <= edit_distance(a, b) + edit_distance(b, c));
            }
        }
    }
}
