//! Comprehensions, evaluated for iteration.
use polydat::comprehension::ast::Comprehension;
use polydat::comprehension::runtime::{
    evaluate_for_iteration, FilterReply, Question, Replies, RuntimeError, RuntimeTuple, Stop,
};
use polydat::comprehension::source::{LiteralValue, Source};
use polydat::comprehension::strategy::{StrategyName, ZipMode};
use polydat::value::Datum as Value;

/// Evaluates `comp`, answering each question about a condition `{k} > 3`.
fn evaluate(comp: &Comprehension) -> Vec<RuntimeTuple> {
    let mut replies = Replies {
        sources: vec![],
        filters: vec![],
        empties: vec![],
        displays: vec![],
    };
    loop {
        match evaluate_for_iteration(comp, &replies) {
            Ok(tuples) => return tuples,
            Err(Stop::Ask(Question::Filter { predicate, tuple })) => {
                assert_eq!(predicate, "{k} > 3");
                let holds = match &tuple[0].1 {
                    Value::U64(k) => *k > 3,
                    other => panic!("expected u64 k, got {other:?}"),
                };
                replies.filters.push(FilterReply::Verdict {
                    value: Value::Bool(holds),
                    shown: format!("{holds}"),
                });
            }
            Err(other) => panic!("unexpected stop: {other:?}"),
        }
    }
}

#[test]
fn int_range_yields_values() {
    let comp = Comprehension::Clause {
        name: "k".into(),
        source: Source::IntRange { lo: 1, hi: 5, step: 1 },
    };
    let tuples = evaluate(&comp);
    assert_eq!(tuples.len(), 4);
    assert_eq!(tuples[0][0].1, Value::U64(1));
    assert_eq!(tuples[3][0].1, Value::U64(4));
}

#[test]
fn literal_list_yields_values() {
    let comp = Comprehension::Clause {
        name: "x".into(),
        source: Source::Literal {
            values: vec![LiteralValue::Int(10), LiteralValue::Int(20)],
        },
    };
    let tuples = evaluate(&comp);
    assert_eq!(tuples.len(), 2);
}

#[test]
fn cartesian_produces_product() {
    let comp = Comprehension::cartesian(vec![
        Comprehension::Clause {
            name: "x".into(),
            source: Source::IntRange { lo: 1, hi: 3, step: 1 },
        },
        Comprehension::Clause {
            name: "y".into(),
            source: Source::IntRange { lo: 10, hi: 30, step: 10 },
        },
    ]);
    let tuples = evaluate(&comp);
    // 2 × 2 = 4
    assert_eq!(tuples.len(), 4);
}

#[test]
fn union_produces_concatenation() {
    let comp = Comprehension::union(vec![
        Comprehension::Clause {
            name: "k".into(),
            source: Source::Literal { values: vec![LiteralValue::Int(1)] },
        },
        Comprehension::Clause {
            name: "k".into(),
            source: Source::Literal {
                values: vec![LiteralValue::Int(10), LiteralValue::Int(20)],
            },
        },
    ]);
    let tuples = evaluate(&comp);
    assert_eq!(tuples.len(), 3);
}

#[test]
fn filter_drops_non_matching() {
    let comp = Comprehension::filter(
        Comprehension::Clause {
            name: "k".into(),
            source: Source::IntRange { lo: 1, hi: 6, step: 1 },
        },
        "{k} > 3",
    );
    let tuples = evaluate(&comp);
    // 1..6 = [1,2,3,4,5]; filter > 3 keeps [4, 5]
    assert_eq!(tuples.len(), 2);
}

#[test]
fn order_lex_truncate() {
    let comp = Comprehension::order(
        Comprehension::Clause {
            name: "k".into(),
            source: Source::IntRange { lo: 1, hi: 100, step: 1 },
        },
        StrategyName::Lex,
        Some(5),
    );
    let tuples = evaluate(&comp);
    assert_eq!(tuples.len(), 5);
}

#[test]
fn extrema_over_cartesian_uses_indexed_form() {
    let comp = Comprehension::order(
        Comprehension::cartesian(vec![
            Comprehension::Clause {
                name: "k".into(),
                source: Source::Literal {
                    values: vec![
                        LiteralValue::Int(1),
                        LiteralValue::Int(2),
                        LiteralValue::Int(3),
                    ],
                },
            },
            Comprehension::Clause {
                name: "limit".into(),
                source: Source::Literal {
                    values: vec![
                        LiteralValue::Int(10),
                        LiteralValue::Int(20),
                        LiteralValue::Int(30),
                    ],
                },
            },
        ]),
        StrategyName::Extrema,
        // The corner stratum alone.
        Some(1),
    );
    let tuples = evaluate(&comp);
    // 3x3 lattice → 4 corners (interior count 0) via the indexed form.
    assert_eq!(tuples.len(), 4);
    // Each corner pairs an extreme k with an extreme limit.
    for t in &tuples {
        assert_eq!(t.len(), 2);
        let k = match &t[0].1 {
            Value::U64(n) => *n,
            other => panic!("expected u64 k, got {other:?}"),
        };
        let lim = match &t[1].1 {
            Value::U64(n) => *n,
            other => panic!("expected u64 limit, got {other:?}"),
        };
        assert!(k == 1 || k == 3, "expected extreme k, got {k}");
        assert!(lim == 10 || lim == 30, "expected extreme limit, got {lim}");
    }
}

fn replies() -> Replies {
    Replies { sources: vec![], filters: vec![], empties: vec![], displays: vec![] }
}

fn range(name: &str, lo: i64, hi: i64) -> Comprehension {
    Comprehension::Clause { name: name.into(), source: Source::IntRange { lo, hi, step: 1 } }
}

fn failed(comp: &Comprehension, replies: &Replies) -> RuntimeError {
    match evaluate_for_iteration(comp, replies) {
        Err(Stop::Failed(e)) => e,
        other => panic!("expected a failure, got {other:?}"),
    }
}

#[test]
fn a_source_that_does_not_evaluate_fails_the_evaluation() {
    let comp = Comprehension::Clause {
        name: "g".into(),
        source: Source::Generator { expr: "gen(1)".into(), cardinality_hint: None },
    };
    assert_eq!(
        evaluate_for_iteration(&comp, &replies()),
        Err(Stop::Ask(Question::Source {
            var: "g".into(),
            text: "gen(1)".into(),
            prefix: vec![],
        }))
    );
    let mut r = replies();
    r.sources.push(Err("no such function".into()));
    let e = failed(&comp, &r);
    assert_eq!(e.to_string(""), "for_each clause 'g in gen(1)': no such function");
    let mut r = replies();
    r.sources.push(Ok(vec![Value::U64(7)]));
    assert_eq!(
        evaluate_for_iteration(&comp, &r),
        Ok(vec![vec![("g".to_string(), Value::U64(7))]])
    );
}

#[test]
fn a_condition_has_to_say_yes_or_no() {
    let comp = Comprehension::Filter {
        child: Box::new(range("k", 1, 2)),
        predicate: "{k} > 3".into(),
    };
    let mut r = replies();
    r.filters.push(FilterReply::Failed("bad".into()));
    assert_eq!(failed(&comp, &r).to_string(""), "comprehension filter '{k} > 3': bad");
    let mut r = replies();
    r.filters.push(FilterReply::Verdict {
        value: Value::Str("maybe".to_string()),
        shown: "Str(maybe)".into(),
    });
    assert_eq!(
        failed(&comp, &r).to_string(""),
        "comprehension filter '{k} > 3': expected bool/u64/f64, got Str(maybe)"
    );
}

#[test]
fn a_clause_without_values_asks_first() {
    let comp = range("k", 3, 3);
    assert!(matches!(
        evaluate_for_iteration(&comp, &replies()),
        Err(Stop::Ask(Question::Empty(_)))
    ));
    let mut r = replies();
    r.empties.push(Ok(()));
    assert_eq!(evaluate_for_iteration(&comp, &r), Ok(vec![]));
    let mut r = replies();
    r.empties.push(Err("k is empty".into()));
    assert_eq!(failed(&comp, &r), RuntimeError::EmptyPolicy("k is empty".into()));
}

#[test]
fn a_strict_zip_wants_equal_lengths() {
    let comp = Comprehension::Zip {
        children: vec![range("a", 0, 2), range("b", 0, 3)],
        mode: ZipMode::Strict,
    };
    assert_eq!(
        failed(&comp, &replies()),
        RuntimeError::UnsupportedShape("zip strict: child lengths differ ([2, 3])".into())
    );
}

#[test]
fn a_strategy_turns_down_what_it_cannot_address() {
    let comp = Comprehension::Order {
        child: Box::new(Comprehension::Order {
            child: Box::new(range("a", 0, 2)),
            strategy: StrategyName::Lex,
            truncation: None,
        }),
        strategy: StrategyName::Diagonal,
        truncation: None,
    };
    let e = failed(&comp, &replies());
    assert!(matches!(
        e,
        RuntimeError::StrategyRejectsInput { strategy: StrategyName::Diagonal, .. }
    ));
    assert!(e.to_string("None").starts_with("order strategy Diagonal rejects input shape None"));
}
