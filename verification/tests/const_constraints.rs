//! Rules on constant arguments.
use polydat::dsl::const_constraints::{check_opt, ConstConstraint, Violation};
use polydat::dsl::factory::ConstArg;
use polydat::float::Float64;

fn double(x: f64) -> Float64 {
    Float64 { bits: x.to_bits() }
}

fn float(x: f64) -> ConstArg {
    ConstArg::Float(double(x))
}

fn text(s: &str) -> ConstArg {
    ConstArg::Str(s.to_string())
}

fn check(rule: ConstConstraint, arg: ConstArg) -> Result<(), Violation> {
    rule.check(&arg, &Ok(()))
}

#[test]
fn integers_are_held_to_a_range() {
    let rule = ConstConstraint::RangeU64 { min: 2, max: 4 };
    assert_eq!(check(rule, ConstArg::Int(2)), Ok(()));
    assert_eq!(check(rule, ConstArg::Int(4)), Ok(()));
    let v = check(rule, ConstArg::Int(5)).unwrap_err();
    assert_eq!(v, Violation::OutsideU64 { min: 2, max: 4, got: 5 });
    assert_eq!(v.to_string("k", "", "", ""), "k must be in [2, 4], got 5");
}

#[test]
fn doubles_are_held_to_a_range() {
    let rule = ConstConstraint::RangeF64 { min: double(0.0), max: double(1.0) };
    assert_eq!(check(rule, float(0.5)), Ok(()));
    assert_eq!(check(rule, float(-0.0)), Ok(()));
    assert_eq!(check(rule, ConstArg::Int(1)), Ok(()));
    let v = check(rule, float(1.5)).unwrap_err();
    assert_eq!(v.to_string("p", "0", "1", "1.5"), "p must be in [0, 1], got 1.5");
    assert!(check(rule, float(f64::NAN)).is_err());
}

#[test]
fn integers_are_held_to_a_set() {
    let rule = ConstConstraint::AllowedU64(&[8, 16, 32]);
    assert_eq!(check(rule, ConstArg::Int(16)), Ok(()));
    let v = check(rule, ConstArg::Int(9)).unwrap_err();
    assert_eq!(v.to_string("bits", "", "", ""), "bits must be one of [8, 16, 32], got 9");
}

#[test]
fn zero_and_empty_are_refused() {
    assert_eq!(check(ConstConstraint::NonZeroU64, ConstArg::Int(1)), Ok(()));
    let v = check(ConstConstraint::NonZeroU64, ConstArg::Int(0)).unwrap_err();
    assert_eq!(v.to_string("n", "", "", ""), "n must be non-zero");
    assert_eq!(check(ConstConstraint::NonEmptyStr, text("a")), Ok(()));
    let v = check(ConstConstraint::NonEmptyStr, text(" \t")).unwrap_err();
    assert_eq!(v.to_string("s", "", "", ""), "s must be non-empty");
}

#[test]
fn a_format_decides_on_its_texts() {
    let rule = ConstConstraint::StrParser("weights");
    assert_eq!(rule.check(&text("a:1"), &Ok(())), Ok(()));
    let v = rule.check(&text("a:"), &Err("no weight".to_string())).unwrap_err();
    assert_eq!(v, Violation::Malformed { message: "no weight".to_string() });
    assert_eq!(v.to_string("spec", "", "", ""), "spec: no weight");
}

#[test]
fn doubles_have_to_be_finite() {
    assert_eq!(check(ConstConstraint::FiniteF64, float(-1.0)), Ok(()));
    let v = check(ConstConstraint::FiniteF64, float(f64::INFINITY)).unwrap_err();
    assert_eq!(v.to_string("x", "", "", "inf"), "x must be a finite f64, got inf");
    assert_eq!(check(ConstConstraint::PositiveFiniteF64, float(0.25)), Ok(()));
    let v = check(ConstConstraint::PositiveFiniteF64, float(0.0)).unwrap_err();
    assert_eq!(v.to_string("x", "", "", "0"), "x must be a positive finite f64, got 0");
}

#[test]
fn a_missing_constant_breaks_no_rule() {
    let consts = vec![ConstArg::Int(0)];
    assert_eq!(check_opt(&ConstConstraint::NonZeroU64, &consts, 1, &Ok(())), Ok(()));
    assert_eq!(
        check_opt(&ConstConstraint::NonZeroU64, &consts, 0, &Ok(())),
        Err(Violation::Zero)
    );
}
