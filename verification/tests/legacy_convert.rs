//! Comprehensions as they are written, in the algebra.
use polydat::comprehension::ast::Comprehension as AlgebraAst;
use polydat::comprehension::ast_legacy::{
    Clause as LegacyClause, Comprehension as LegacyAst, ComprehensionMode as LegacyMode,
    Subspace as LegacySubspace, TraversalOrder as LegacyOrder,
};
use polydat::comprehension::source::{LiteralValue, Source};
use polydat::comprehension::spec::legacy_convert::{legacy_to_algebra, ConvertError};
use polydat::comprehension::strategy::{StrategyName, ZipMode as AlgebraZipMode};

fn legacy_clause(var: &str, source: &str) -> LegacyClause {
    LegacyClause::new(var, source)
}

#[test]
fn cartesian_single_clause_collapses_to_clause() {
    let legacy = LegacyAst {
        mode: LegacyMode::Cartesian(vec![legacy_clause("k", "1..10")]),
        filter: None,
        order: None,
    };
    let algebra = legacy_to_algebra(&legacy).unwrap();
    match algebra {
        AlgebraAst::Clause { name, source } => {
            assert_eq!(name, "k");
            assert!(matches!(source, Source::IntRange { lo: 1, hi: 10, step: 1 }));
        }
        other => panic!("expected Clause, got {other:?}"),
    }
}

#[test]
fn multi_clause_cartesian_becomes_algebra_cartesian() {
    let legacy = LegacyAst {
        mode: LegacyMode::Cartesian(vec![
            legacy_clause("k", "1..10"),
            legacy_clause("limit", "[10, 100, 1000]"),
        ]),
        filter: None,
        order: None,
    };
    let algebra = legacy_to_algebra(&legacy).unwrap();
    match algebra {
        AlgebraAst::Cartesian { children } => {
            assert_eq!(children.len(), 2);
            // First clause: int range
            match &children[0] {
                AlgebraAst::Clause { name, source } => {
                    assert_eq!(name, "k");
                    assert!(matches!(
                        source,
                        Source::IntRange { lo: 1, hi: 10, step: 1 }
                    ));
                }
                other => panic!("expected Clause, got {other:?}"),
            }
            // Second clause: literal list
            match &children[1] {
                AlgebraAst::Clause { name, source } => {
                    assert_eq!(name, "limit");
                    match source {
                        Source::Literal { values } => {
                            assert_eq!(values.len(), 3);
                            assert_eq!(values[0], LiteralValue::Int(10));
                        }
                        other => panic!("expected Literal, got {other:?}"),
                    }
                }
                other => panic!("expected Clause, got {other:?}"),
            }
        }
        other => panic!("expected Cartesian, got {other:?}"),
    }
}

#[test]
fn filter_wraps_body() {
    let legacy = LegacyAst {
        mode: LegacyMode::Cartesian(vec![legacy_clause("k", "1..10")]),
        filter: Some("{k} > 5".to_string()),
        order: None,
    };
    let algebra = legacy_to_algebra(&legacy).unwrap();
    assert!(matches!(algebra, AlgebraAst::Filter { .. }));
}

#[test]
fn order_lex_with_count_round_trips() {
    let legacy = LegacyAst {
        mode: LegacyMode::Cartesian(vec![legacy_clause("k", "1..10")]),
        filter: None,
        order: Some(LegacyOrder::Lex { count: Some(5) }),
    };
    let algebra = legacy_to_algebra(&legacy).unwrap();
    match algebra {
        AlgebraAst::Order { strategy: StrategyName::Lex, truncation: Some(5), .. } => {}
        other => panic!("expected Order(Lex, Some(5)), got {other:?}"),
    }
}

#[test]
fn order_halton_with_count() {
    let legacy = LegacyAst {
        mode: LegacyMode::Cartesian(vec![
            legacy_clause("k", "1..10"),
            legacy_clause("limit", "1..100"),
        ]),
        filter: None,
        order: Some(LegacyOrder::Halton { count: Some(20) }),
    };
    let algebra = legacy_to_algebra(&legacy).unwrap();
    match algebra {
        AlgebraAst::Order {
            strategy: StrategyName::Halton,
            truncation: Some(20),
            ..
        } => {}
        other => panic!("expected Order(Halton, Some(20)), got {other:?}"),
    }
}

#[test]
fn custom_ordering_rejected() {
    let legacy = LegacyAst {
        mode: LegacyMode::Cartesian(vec![legacy_clause("k", "1..10")]),
        filter: None,
        order: Some(LegacyOrder::Custom {
            function: "my_fn".to_string(),
        }),
    };
    let err = legacy_to_algebra(&legacy).unwrap_err();
    assert!(matches!(err, ConvertError::CustomOrderingRemoved { .. }));
}

#[test]
fn union_of_subspaces() {
    let legacy = LegacyAst {
        mode: LegacyMode::Union(vec![
            LegacySubspace::new(vec![
                legacy_clause("k", "10"),
                legacy_clause("limit", "[1, 2, 3]"),
            ]),
            LegacySubspace::new(vec![
                legacy_clause("k", "100"),
                legacy_clause("limit", "[10, 20, 30]"),
            ]),
        ]),
        filter: None,
        order: None,
    };
    let algebra = legacy_to_algebra(&legacy).unwrap();
    match algebra {
        AlgebraAst::Union { children } => assert_eq!(children.len(), 2),
        other => panic!("expected Union, got {other:?}"),
    }
}

#[test]
fn parallel_clause_becomes_zip() {
    let parallel = LegacyClause::parallel(&["x", "y"], &["1..3", "10..30"]);
    let legacy = LegacyAst {
        mode: LegacyMode::Cartesian(vec![parallel]),
        filter: None,
        order: None,
    };
    let algebra = legacy_to_algebra(&legacy).unwrap();
    // After the singleton-cartesian elide, the Zip
    // surfaces at the top level.
    match algebra {
        AlgebraAst::Zip { children, mode: AlgebraZipMode::Strict } => {
            assert_eq!(children.len(), 2);
        }
        other => panic!("expected Zip, got {other:?}"),
    }
}

#[test]
fn unparseable_source_falls_back_to_generator() {
    // A text that is no list and no range is a generator.
    let legacy = LegacyAst {
        mode: LegacyMode::Cartesian(vec![legacy_clause("k", "totally nonsense")]),
        filter: None,
        order: None,
    };
    let algebra = legacy_to_algebra(&legacy).unwrap();
    match algebra {
        AlgebraAst::Clause { source, .. } => match source {
            Source::Generator { expr, .. } => {
                assert_eq!(expr, "totally nonsense");
            }
            other => panic!("expected Generator, got {other:?}"),
        },
        other => panic!("expected Clause, got {other:?}"),
    }
}


fn refused(mode: LegacyMode) -> ConvertError {
    legacy_to_algebra(&LegacyAst { mode, filter: None, order: None }).unwrap_err()
}

#[test]
fn each_conversion_error_has_its_text() {
    let e = refused(LegacyMode::Cartesian(vec![legacy_clause("k", "  ")]));
    assert_eq!(
        e.to_string(),
        "clause \"k\" source \"  \" failed to parse: empty source expression"
    );
    let e = refused(LegacyMode::Cartesian(vec![]));
    assert_eq!(e, ConvertError::EmptyComprehension);
    assert_eq!(e.to_string(), "comprehension has no clauses");
    let e = refused(LegacyMode::Union(vec![LegacySubspace { clauses: vec![] }]));
    assert_eq!(e, ConvertError::EmptyUnionSubspace);
    assert_eq!(e.to_string(), "union has empty sub-space");
    let e = ConvertError::ParallelArityMismatch { vars: 2, exprs: 3 };
    assert_eq!(e.to_string(), "parallel clause vars=2 != exprs=3");
    let e = ConvertError::CustomOrderingRemoved { function: "f\n".to_string() };
    assert!(e.to_string().starts_with("custom ordering \"f\\n\" is no longer supported"));
}
