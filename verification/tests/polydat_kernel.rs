//! Tuples bound to a program.
use polydat::comprehension::surfaces::polydat_kernel::{
    polydat_value_to_tuple_value, tuple_value_to_polydat_value,
};
use polydat::comprehension::tuple::TupleValue;
use polydat::float::Float64;
use polydat::value::Datum as Value;

fn double(x: f64) -> Float64 {
    Float64 { bits: x.to_bits() }
}

#[test]
fn tuple_value_to_polydat_round_trips_u64() {
    let tv = TupleValue::U64(42);
    let pv = tuple_value_to_polydat_value(&tv);
    let back = polydat_value_to_tuple_value(&pv).unwrap();
    assert_eq!(tv, back);
}

#[test]
fn tuple_value_to_polydat_round_trips_f64() {
    let tv = TupleValue::F64(double(3.14));
    let pv = tuple_value_to_polydat_value(&tv);
    let back = polydat_value_to_tuple_value(&pv).unwrap();
    assert_eq!(tv, back);
}

#[test]
fn tuple_value_to_polydat_round_trips_string() {
    let tv = TupleValue::Str("hello".into());
    let pv = tuple_value_to_polydat_value(&tv);
    let back = polydat_value_to_tuple_value(&pv).unwrap();
    assert_eq!(tv, back);
}

#[test]
fn tuple_value_to_polydat_round_trips_bool() {
    let tv = TupleValue::Bool(true);
    let pv = tuple_value_to_polydat_value(&tv);
    let back = polydat_value_to_tuple_value(&pv).unwrap();
    assert_eq!(tv, back);
}

#[test]
fn i64_converts_via_bitcast() {
    let tv = TupleValue::I64(123);
    let pv = tuple_value_to_polydat_value(&tv);
    match pv {
        Value::U64(n) => assert_eq!(n, 123u64),
        other => panic!("expected U64, got {other:?}"),
    }
}

#[test]
fn polydat_value_returns_none_for_unsupported_variants() {
    let pv = Value::Bytes(b"abc"[..].to_vec());
    assert!(polydat_value_to_tuple_value(&pv).is_none());
}
