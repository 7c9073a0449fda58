//! Cardinality classes.
use polydat::comprehension::cardinality::{Interval, MeasureName, ProductMeasure};
use polydat::float::Float64;

fn double(x: f64) -> Float64 {
    Float64 { bits: x.to_bits() }
}

#[test]
fn bounded_interval_is_bounded() {
    assert!(Interval::closed(double(0.0), double(1.0)).is_bounded());
    assert!(Interval::open(double(-1.0), double(1.0)).is_bounded());
}

#[test]
fn unbounded_interval_is_not_bounded() {
    let i = Interval { lo: double(0.0), hi: double(f64::INFINITY), lo_open: false, hi_open: true };
    assert!(!i.is_bounded());
}

#[test]
fn uniform_integrable_on_bounded_interval() {
    let m = ProductMeasure::Uniform;
    assert!(m.is_integrable(&[Interval::closed(double(0.0), double(1.0))]));
}

#[test]
fn uniform_not_integrable_on_unbounded_interval() {
    let m = ProductMeasure::Uniform;
    let unbounded = Interval { lo: double(0.0), hi: double(f64::INFINITY), lo_open: false, hi_open: true };
    assert!(!m.is_integrable(&[unbounded]));
}

#[test]
fn named_measure_always_integrable() {
    let m = ProductMeasure::Named(MeasureName::Normal);
    let unbounded = Interval {
        lo: double(f64::NEG_INFINITY),
        hi: double(f64::INFINITY),
        lo_open: true,
        hi_open: true,
    };
    assert!(m.is_integrable(&[unbounded]));
}

#[test]
fn product_measure_requires_matching_arity() {
    let m = ProductMeasure::Product(vec![ProductMeasure::Uniform, ProductMeasure::Uniform]);
    assert!(m.is_integrable(&[Interval::closed(double(0.0), double(1.0)), Interval::closed(double(0.0), double(1.0))]));
    assert!(!m.is_integrable(&[Interval::closed(double(0.0), double(1.0))]));
}

