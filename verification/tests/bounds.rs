//! What a program holds.
use polydat::comprehension::ir::bounds::check_bounds;
use polydat::comprehension::ir::op::Op;
use polydat::comprehension::ir::program::Program;
use polydat::comprehension::source::Source;
use polydat::comprehension::strategy::{StrategyName, ZipMode};

fn push_clause(name: &str) -> Op {
    Op::PushClause {
        name: name.into(),
        source: Source::Literal { values: vec![] },
    }
}

#[test]
fn empty_program_has_zero_bounds() {
    let p = Program::new(vec![]);
    let b = check_bounds(&p);
    assert_eq!(b.stack_depth, 0);
    assert_eq!(b.streaming_op_count, 0);
    assert!(b.barriers.is_empty());
}

#[test]
fn streaming_program_has_no_barriers() {
    let p = Program::new(vec![
        push_clause("a"),
        push_clause("b"),
        Op::Cartesian { n: 2 },
        Op::Filter { predicate: "true".into() },
        Op::Dispense,
    ]);
    let b = check_bounds(&p);
    assert_eq!(b.stack_depth, 2);
    assert!(b.barriers.is_empty());
    assert_eq!(b.streaming_op_count, 4); // push, push, cartesian, filter (dispense excluded)
}

#[test]
fn order_materialize_reports_barrier() {
    let p = Program::new(vec![
        push_clause("a"),
        push_clause("b"),
        Op::Cartesian { n: 2 },
        Op::OrderMaterialize {
            strategy: StrategyName::Halton,
            truncation: Some(50),
            indexed: true,
            input_index_fn: None,
        },
        Op::Dispense,
    ]);
    let b = check_bounds(&p);
    assert_eq!(b.barriers.len(), 1);
    assert_eq!(b.barriers[0].working_set_size, Some(50));
    assert_eq!(b.total_barrier_working_set(), Some(50));
}

#[test]
fn zip_cycle_reports_barrier_with_unknown_size_at_ir_layer() {
    let p = Program::new(vec![
        push_clause("a"),
        push_clause("b"),
        Op::Zip { n: 2, mode: ZipMode::Cycle },
        Op::Dispense,
    ]);
    let b = check_bounds(&p);
    assert_eq!(b.barriers.len(), 1);
    // IR layer doesn't know child cardinalities.
    assert!(b.barriers[0].working_set_size.is_none());
    assert!(b.total_barrier_working_set().is_none());
}

#[test]
fn multiple_barriers_sum() {
    let p = Program::new(vec![
        push_clause("a"),
        Op::OrderMaterialize {
            strategy: StrategyName::Halton,
            truncation: Some(10),
            indexed: true,
            input_index_fn: None,
        },
        Op::OrderMaterialize {
            strategy: StrategyName::Shuffle,
            truncation: Some(20),
            indexed: true,
            input_index_fn: None,
        },
        Op::Dispense,
    ]);
    let b = check_bounds(&p);
    assert_eq!(b.barriers.len(), 2);
    assert_eq!(b.total_barrier_working_set(), Some(30));
}
