//! Sets of coordinates.
use polydat::comprehension::cardinality::{CardinalityClass, Interval, ProductMeasure};
use polydat::comprehension::metadata::{IndexFn, Materialization, Metadata, NaturalOrder};
use polydat::comprehension::predicate::coordset::CoordSet;
use polydat::float::Float64;

fn double(x: f64) -> Float64 {
    Float64 { bits: x.to_bits() }
}

fn dummy_metadata(idx: Option<IndexFn>) -> Metadata {
    Metadata {
        cardinality: CardinalityClass::Bounded(0),
        index_addressable: idx,
        natural_order: NaturalOrder::Lex,
        materialization: Materialization::Streaming,
    }
}

#[test]
fn all_discrete_convenience() {
    let s = CoordSet::all_discrete(&["k", "limit"]);
    assert_eq!(s.len(), 2);
    assert!(!s.is_continuous("k"));
    assert!(!s.is_continuous("limit"));
    assert!(s.contains("k"));
    assert!(!s.contains("missing"));
}

#[test]
fn from_metadata_lattice_all_discrete() {
    let m = dummy_metadata(Some(IndexFn::Lattice { axis_sizes: vec![3, 4] }));
    let s = CoordSet::from_metadata(&["k".to_string(), "limit".to_string()], &m);
    assert_eq!(s.len(), 2);
    assert!(!s.is_continuous("k"));
    assert!(!s.is_continuous("limit"));
}

#[test]
fn from_metadata_continuous_all_continuous() {
    let m = dummy_metadata(Some(IndexFn::Continuous {
        intervals: vec![Interval::closed(double(0.0), double(1.0)), Interval::closed(double(0.0), double(1.0))],
        measure: ProductMeasure::Uniform,
    }));
    let s = CoordSet::from_metadata(&["alpha".to_string(), "beta".to_string()], &m);
    assert!(s.is_continuous("alpha"));
    assert!(s.is_continuous("beta"));
}

#[test]
fn from_metadata_hybrid_per_axis_split() {
    let m = dummy_metadata(Some(IndexFn::Hybrid {
        discrete_axes: vec![5],
        continuous_axes: vec![Interval::closed(double(0.0), double(1.0))],
        measure: ProductMeasure::Uniform,
    }));
    // Order in CoordSet must match: discrete axes first,
    // then continuous.
    let s = CoordSet::from_metadata(&["k".to_string(), "theta".to_string()], &m);
    assert!(!s.is_continuous("k"));
    assert!(s.is_continuous("theta"));
}

#[test]
fn from_metadata_none_index_fn_all_discrete() {
    let m = dummy_metadata(None);
    let s = CoordSet::from_metadata(&["a".to_string(), "b".to_string()], &m);
    // Conservative — no Continuous classification when we
    // can't determine kinds.
    assert!(!s.is_continuous("a"));
    assert!(!s.is_continuous("b"));
}
