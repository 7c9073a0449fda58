//! Doubles, port types and the generator of positions.
use polydat::float::{Float64, Side};
use polydat::pcg::pcg_seek;
use polydat::value::PortType;

fn double(x: f64) -> Float64 {
    Float64 { bits: x.to_bits() }
}

#[test]
fn integers_become_doubles() {
    for n in [0u64, 1, 3, 10, 1 << 53, (1 << 53) + 1, (1 << 53) + 3, u64::MAX] {
        assert_eq!(Float64::from_u64(n), double(n as f64), "{n}");
    }
    for n in [0i64, -1, 7, i64::MIN, i64::MAX, -(1 << 53) - 1] {
        assert_eq!(Float64::from_i64(n), double(n as f64), "{n}");
    }
}

#[test]
fn texts_become_doubles() {
    for t in [
        "0", "-0", "1.5", "-2.25e3", "0.1", "3.141592653589793", "1e308", "1e309", "5e-324",
        "2.4703282292062327e-324", "2.4703282292062328e-324", "9007199254740993", ".5", "5.",
        "inf", "-infinity", "1e-400", "123456789012345678901234567890",
    ] {
        let want: f64 = t.parse().unwrap();
        assert_eq!(Float64::parse(t), Some(double(want)), "{t}");
    }
    for t in ["", "x", "1e", "--1", "1 ", ".", "1_0"] {
        assert_eq!(Float64::parse(t), None, "{t}");
    }
}

#[test]
fn doubles_are_ordered() {
    assert_eq!(double(1.0).compare(double(2.0)), Some(Side::Below));
    assert_eq!(double(-1.0).compare(double(-2.0)), Some(Side::Above));
    assert_eq!(double(0.0).compare(double(-0.0)), Some(Side::Same));
    assert_eq!(double(f64::NAN).compare(double(0.0)), None);
    assert!(double(f64::NAN).is_nan());
    assert!(!double(f64::INFINITY).is_finite());
    assert_eq!(double(2.0).negate(), double(-2.0));
    assert!(double(-0.0).is_zero());
}

#[test]
fn a_keyword_names_its_type() {
    for t in [
        PortType::U64, PortType::F64, PortType::Bool, PortType::Str, PortType::Bytes,
        PortType::Json, PortType::U32, PortType::I32, PortType::I64, PortType::F32,
        PortType::Handle, PortType::U128, PortType::RegF64x2,
    ] {
        assert_eq!(PortType::from_keyword(t.to_keyword()), Some(t));
    }
    assert_eq!(PortType::from_keyword("word"), None);
}

#[test]
fn a_position_is_reached_by_steps() {
    let one = |state: u64| {
        state.wrapping_mul(6364136223846793005).wrapping_add(1442695040888963407)
    };
    let out = |state: u64| {
        let word = ((state >> ((state >> 59) + 5)) ^ state).wrapping_mul(12605985483714917081);
        (word >> 43) ^ word
    };
    let mut state = 42u64;
    for k in 0..20u64 {
        assert_eq!(pcg_seek(42, 1442695040888963407, k), out(state), "{k}");
        state = one(state);
    }
}
