//! The values of a source.
use polydat::comprehension::cardinality::{Interval, MeasureName, ProductMeasure};
use polydat::comprehension::eval_source::{EvalClass, EvalContext, EvalError, SourceEval};
use polydat::comprehension::metadata::IndexFn;
use polydat::comprehension::source::{LiteralValue, Source};
use polydat::float::Float64;
use polydat::value::Datum as Value;

fn double(x: f64) -> Float64 {
    Float64 { bits: x.to_bits() }
}

#[test]
fn literal_evaluates_without_context() {
    let s = Source::Literal {
        values: vec![LiteralValue::Int(1), LiteralValue::Int(2), LiteralValue::Int(3)],
    };
    assert_eq!(s.eval_class(), EvalClass::Static);
    let ev = s.evaluate(None).unwrap();
    assert_eq!(ev.cardinality, 3);
    assert_eq!(ev.values.len(), 3);
    assert!(matches!(ev.index_fn, IndexFn::Lattice { axis_sizes: ref a } if a == &vec![3]));
}

#[test]
fn int_range_evaluates_without_context() {
    let s = Source::IntRange { lo: 0, hi: 10, step: 2 };
    assert_eq!(s.eval_class(), EvalClass::Static);
    let ev = s.evaluate(None).unwrap();
    // 0, 2, 4, 6, 8 = 5 values
    assert_eq!(ev.cardinality, 5);
    assert!(matches!(ev.index_fn, IndexFn::Lattice { axis_sizes: ref a } if a == &vec![5]));
}

#[test]
fn generator_without_context_errors() {
    let s = Source::Generator {
        expr: "range(0, 10)".into(),
        cardinality_hint: Some(10),
    };
    assert_eq!(s.eval_class(), EvalClass::ContextRequired);
    match s.evaluate(None) {
        Err(EvalError::NeedsContext) => {}
        other => panic!("expected NeedsContext, got {other:?}"),
    }
}

#[test]
fn workload_param_list_without_context_errors() {
    let s = Source::WorkloadParamList {
        name: "k_values".into(),
        len_hint: Some(5),
    };
    assert_eq!(s.eval_class(), EvalClass::ContextRequired);
    assert!(matches!(s.evaluate(None), Err(EvalError::NeedsContext)));
}

#[test]
fn continuous_interval_yields_continuous_index_fn() {
    let s = Source::ContinuousInterval {
        interval: Interval::closed(double(0.0), double(1.0)),
        measure: ProductMeasure::Uniform,
    };
    assert_eq!(s.eval_class(), EvalClass::Distribution);
    let ev = s.evaluate(None).unwrap();
    assert_eq!(ev.cardinality, 0);
    assert!(ev.values.is_empty());
    match ev.index_fn {
        IndexFn::Continuous { intervals, .. } => assert_eq!(intervals.len(), 1),
        other => panic!("expected Continuous, got {other:?}"),
    }
}

#[test]
fn distribution_yields_continuous_index_fn() {
    let s = Source::Distribution {
        distribution: MeasureName::Normal,
        support: Interval {
            lo: double(f64::NEG_INFINITY),
            hi: double(f64::INFINITY),
            lo_open: true,
            hi_open: true,
        },
        params: vec![double(0.0), double(1.0)],
    };
    assert_eq!(s.eval_class(), EvalClass::Distribution);
    let ev = s.evaluate(None).unwrap();
    assert_eq!(ev.cardinality, 0);
    assert!(matches!(ev.index_fn, IndexFn::Continuous { .. }));
}

#[test]
fn generator_with_context_evaluates_to_lattice() {
    let s = Source::Generator {
        expr: "1, 2, 3, 4, 5".into(),
        cardinality_hint: Some(5),
    };
    let ctx = EvalContext {
        var_name: "k".to_string(),
        outcome: Ok(vec![
            Value::U64(1),
            Value::U64(2),
            Value::U64(3),
            Value::U64(4),
            Value::U64(5),
        ]),
    };
    let ev = s.evaluate(Some(&ctx)).unwrap();
    assert_eq!(ev.cardinality, 5);
    assert!(matches!(ev.index_fn, IndexFn::Lattice { .. }));
}
