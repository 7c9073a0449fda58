//! Programs.
use polydat::comprehension::ir::op::Op;
use polydat::comprehension::ir::program::Program;
use polydat::comprehension::source::Source;
use polydat::comprehension::strategy::ZipMode;

fn push_clause(name: &str) -> Op {
    Op::PushClause {
        name: name.into(),
        source: Source::Literal { values: vec![] },
    }
}

#[test]
fn stack_depth_simple() {
    // PUSH, PUSH, CARTESIAN(2), DISPENSE — max depth 2.
    let p = Program::new(vec![
        push_clause("a"),
        push_clause("b"),
        Op::Cartesian { n: 2 },
        Op::Dispense,
    ]);
    assert_eq!(p.stack_depth(), 2);
}

#[test]
fn stack_depth_nested() {
    // PUSH, PUSH, PUSH, CARTESIAN(3), DISPENSE — max depth 3.
    let p = Program::new(vec![
        push_clause("a"),
        push_clause("b"),
        push_clause("c"),
        Op::Cartesian { n: 3 },
        Op::Dispense,
    ]);
    assert_eq!(p.stack_depth(), 3);
}

#[test]
fn stack_depth_zip_then_cartesian() {
    // PUSH a, PUSH b, ZIP(2), PUSH c, CARTESIAN(2)
    let p = Program::new(vec![
        push_clause("a"),
        push_clause("b"),
        Op::Zip { n: 2, mode: ZipMode::Strict },
        push_clause("c"),
        Op::Cartesian { n: 2 },
        Op::Dispense,
    ]);
    assert_eq!(p.stack_depth(), 2);
}

