//! Sources and their values.
use polydat::comprehension::cardinality::{CardinalityClass, Interval, MeasureName, ProductMeasure};
use polydat::comprehension::source::{iteration_interior, strip_string_tokens, LiteralValue, Source};
use polydat::float::Float64;
use polydat::value::Datum as Value;

fn double(x: f64) -> Float64 {
    Float64 { bits: x.to_bits() }
}

#[test]
fn string_strips_on_comma_semicolon_whitespace_retaining_colons() {
    // Separators are comma / semicolon / ws;
    // colons (and dots, dashes) stay in-token.
    let got = strip_string_tokens("a:1, b:2; c:3 d:4");
    assert_eq!(got, vec![
        Value::Str("a:1".into()), Value::Str("b:2".into()),
        Value::Str("c:3".into()), Value::Str("d:4".into()),
    ]);
}

#[test]
fn string_tokens_are_typed_like_literals() {
    // Floats survive (dot retained), ints type as U64.
    assert_eq!(strip_string_tokens("1, 2, 3"),
        vec![Value::U64(1), Value::U64(2), Value::U64(3)]);
    assert_eq!(strip_string_tokens("1.5, 2.5"),
        vec![Value::F64(double(1.5)), Value::F64(double(2.5))]);
}

#[test]
fn single_token_string_degenerates_to_singleton() {
    assert_eq!(strip_string_tokens("OTHER"), vec![Value::Str("OTHER".into())]);
}

#[test]
fn iteration_interior_string_is_its_tokens() {
    let v = Value::Str("x, y, z".into());
    assert_eq!(iteration_interior(&v),
        Some(vec![Value::Str("x".into()), Value::Str("y".into()), Value::Str("z".into())]));
}

#[test]
fn iteration_interior_vector_peels_to_elements() {
    let v = Value::VecI32(vec![10, 20, 30]);
    assert_eq!(iteration_interior(&v),
        Some(vec![Value::I64(10), Value::I64(20), Value::I64(30)]));
}

#[test]
fn iteration_interior_signed_vector_peels_signed() {
    // Negative elements iterate as their signed values.
    let v = Value::VecI64(vec![-5_i64, 7]);
    assert_eq!(iteration_interior(&v),
        Some(vec![Value::I64(-5), Value::I64(7)]));
}

#[test]
fn iteration_interior_scalars_are_none() {
    assert_eq!(iteration_interior(&Value::U64(5)), None);
    assert_eq!(iteration_interior(&Value::F64(double(1.5))), None);
    assert_eq!(iteration_interior(&Value::Bool(true)), None);
}

#[test]
fn literal_cardinality_is_list_length() {
    let s = Source::Literal {
        values: vec![LiteralValue::Int(1), LiteralValue::Int(2), LiteralValue::Int(3)],
    };
    assert!(matches!(s.cardinality(), CardinalityClass::Bounded(3)));
}

#[test]
fn int_range_step_1() {
    let s = Source::IntRange { lo: 1, hi: 10, step: 1 };
    assert!(matches!(s.cardinality(), CardinalityClass::Bounded(9)));
}

#[test]
fn int_range_with_step() {
    let s = Source::IntRange { lo: 0, hi: 10, step: 2 };
    // 0,2,4,6,8 = 5 values
    assert!(matches!(s.cardinality(), CardinalityClass::Bounded(5)));
}

#[test]
fn int_range_empty() {
    let s = Source::IntRange { lo: 5, hi: 5, step: 1 };
    assert!(matches!(s.cardinality(), CardinalityClass::Bounded(0)));
}

#[test]
fn generator_without_hint_is_unbounded() {
    let s = Source::Generator { expr: "live_query()".into(), cardinality_hint: None };
    assert!(matches!(s.cardinality(), CardinalityClass::Unbounded));
}

#[test]
fn generator_with_hint_is_bounded() {
    let s = Source::Generator { expr: "first_100()".into(), cardinality_hint: Some(100) };
    assert!(matches!(s.cardinality(), CardinalityClass::Bounded(100)));
}

#[test]
fn continuous_interval_produces_continuous_class() {
    let s = Source::ContinuousInterval {
        interval: Interval::closed(double(0.0), double(1.0)),
        measure: ProductMeasure::Uniform,
    };
    match s.cardinality() {
        CardinalityClass::Continuous { intervals, measure } => {
            assert_eq!(intervals.len(), 1);
            assert!(matches!(measure, ProductMeasure::Uniform));
        }
        other => panic!("expected Continuous, got {other:?}"),
    }
    assert!(s.is_continuous());
    assert!(!s.is_discrete());
}

#[test]
fn distribution_source_classification() {
    let s = Source::Distribution {
        distribution: MeasureName::Normal,
        support: Interval { lo: double(f64::NEG_INFINITY), hi: double(f64::INFINITY), lo_open: true, hi_open: true },
        params: vec![double(0.0), double(1.0)],
    };
    assert!(s.is_continuous());
    match s.cardinality() {
        CardinalityClass::Continuous { measure: ProductMeasure::Named(MeasureName::Normal), .. } => {}
        other => panic!("expected Continuous with Named(Normal), got {other:?}"),
    }
}
