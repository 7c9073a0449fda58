//! Walks by strata.
use polydat::comprehension::cardinality::{Interval, ProductMeasure};
use polydat::comprehension::metadata::IndexFn;
use polydat::comprehension::strategies::extrema::extrema_multi_indices;
use polydat::float::Float64;

fn double(x: f64) -> Float64 {
    Float64 { bits: x.to_bits() }
}

#[test]
fn extrema_2x2_emits_4_corners() {
    let idx = IndexFn::Lattice { axis_sizes: vec![2, 2] };
    let out = extrema_multi_indices(&idx, None);
    assert_eq!(out.len(), 4);
    let mut sorted = out.clone();
    sorted.sort();
    assert_eq!(sorted, vec![vec![0, 0], vec![0, 1], vec![1, 0], vec![1, 1]]);
}

#[test]
fn extrema_3x3x3_strata_match_srd_18d_example() {
    // k-face counts of a 3-cube : corners 2^3 = 8, edges C(3,1)·2^2 = 12, faces
    // C(3,2)·2 = 6, interior 1; 8+12+6+1 = 27.
    let idx = IndexFn::Lattice { axis_sizes: vec![3, 3, 3] };
    assert_eq!(extrema_multi_indices(&idx, Some(1)).len(), 8); // corners
    assert_eq!(extrema_multi_indices(&idx, Some(2)).len(), 20); // + edges
    assert_eq!(extrema_multi_indices(&idx, Some(3)).len(), 26); // + faces
    assert_eq!(extrema_multi_indices(&idx, Some(4)).len(), 27); // + interior
    assert_eq!(extrema_multi_indices(&idx, None).len(), 27); // all strata

    // Stratum 0 is exactly the 8 corners, in lex order.
    assert_eq!(
        extrema_multi_indices(&idx, Some(1)),
        vec![
            vec![0, 0, 0], vec![0, 0, 2], vec![0, 2, 0], vec![0, 2, 2],
            vec![2, 0, 0], vec![2, 0, 2], vec![2, 2, 0], vec![2, 2, 2],
        ]
    );
    // The all-interior point (1,1,1) is the final tuple emitted.
    assert_eq!(
        extrema_multi_indices(&idx, None).last(),
        Some(&vec![1u64, 1, 1])
    );
}

#[test]
fn extrema_3x3_edges_then_center() {
    // 3×3: corners (4) → edges (4) → center (1). `/2` = corners+edges.
    let idx = IndexFn::Lattice { axis_sizes: vec![3, 3] };
    assert_eq!(extrema_multi_indices(&idx, Some(1)).len(), 4);
    assert_eq!(extrema_multi_indices(&idx, Some(2)).len(), 8);
    assert_eq!(extrema_multi_indices(&idx, None).len(), 9);
    let corners = extrema_multi_indices(&idx, Some(1));
    let mut sorted = corners.clone();
    sorted.sort();
    assert_eq!(sorted, vec![vec![0, 0], vec![0, 2], vec![2, 0], vec![2, 2]]);
}

#[test]
fn extrema_partial_count_keeps_whole_stratum() {
    // The fix: a partial count over an equidistant corner set must
    // not split it. `extrema/1` over a 2×2 (all four corners one
    // stratum) keeps ALL four, not an arbitrary Lex-first one.
    let idx = IndexFn::Lattice { axis_sizes: vec![2, 2] };
    for n in [1u64, 2, 3, 4] {
        let out = extrema_multi_indices(&idx, Some(n));
        assert_eq!(out.len(), 4, "extrema/{n} should keep the whole stratum");
    }
    // 3-axis hypercube: 8 corners, still one stratum.
    let idx3 = IndexFn::Lattice { axis_sizes: vec![2, 2, 2] };
    assert_eq!(extrema_multi_indices(&idx3, Some(1)).len(), 8);
}

#[test]
fn extrema_zero_strata_is_empty() {
    let idx = IndexFn::Lattice { axis_sizes: vec![2, 2] };
    assert!(extrema_multi_indices(&idx, Some(0)).is_empty());
}

#[test]
fn extrema_1d_partial_keeps_both_endpoints() {
    // {first, last} are equidistant → one stratum; `/1` keeps both.
    let idx = IndexFn::Lattice { axis_sizes: vec![5] };
    let out = extrema_multi_indices(&idx, Some(1));
    let mut sorted = out.clone();
    sorted.sort();
    assert_eq!(sorted, vec![vec![0], vec![4]]);
}

#[test]
fn extrema_1d_two_strata() {
    // 1-D size-5: stratum 0 = endpoints {0,4}, stratum 1 =
    // interior {1,2,3}. `/1` = endpoints; `None` = all 5,
    // endpoints first.
    let idx = IndexFn::Lattice { axis_sizes: vec![5] };
    let mut endpoints = extrema_multi_indices(&idx, Some(1));
    endpoints.sort();
    assert_eq!(endpoints, vec![vec![0], vec![4]]);
    assert_eq!(extrema_multi_indices(&idx, None).len(), 5);
    assert_eq!(extrema_multi_indices(&idx, None)[0..2], [vec![0], vec![4]]);
}

#[test]
fn extrema_3d_8_corners() {
    let idx = IndexFn::Lattice { axis_sizes: vec![2, 2, 2] };
    let out = extrema_multi_indices(&idx, None);
    assert_eq!(out.len(), 8);
}

#[test]
fn continuous_box_corners() {
    let idx = IndexFn::Continuous {
        intervals: vec![Interval::closed(double(0.0), double(1.0)), Interval::closed(double(-1.0), double(1.0))],
        measure: ProductMeasure::Uniform,
    };
    let out = extrema_multi_indices(&idx, None);
    assert_eq!(out.len(), 4);
    let mut sorted = out.clone();
    sorted.sort();
    assert_eq!(sorted, vec![vec![0, 0], vec![0, 1], vec![1, 0], vec![1, 1]]);
}

#[test]
fn lockstep_endpoints_then_interior() {
    // Lockstep is one axis of `length`; `/1` = endpoints, `None`
    // = the whole reordered sequence (endpoints first).
    let idx = IndexFn::Lockstep { length: 10 };
    assert_eq!(extrema_multi_indices(&idx, Some(1)), vec![vec![0], vec![9]]);
    let all = extrema_multi_indices(&idx, None);
    assert_eq!(all.len(), 10);
    assert_eq!(all[0..2], [vec![0], vec![9]]);
}
