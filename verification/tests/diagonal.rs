//! Walks by index sum.
use polydat::comprehension::cardinality::{Interval, ProductMeasure};
use polydat::comprehension::metadata::IndexFn;
use polydat::comprehension::strategies::diagonal::{diagonal_multi_indices, Antidiagonal, Diagonal};
use polydat::comprehension::strategies::Strategy;
use polydat::float::Float64;

fn double(x: f64) -> Float64 {
    Float64 { bits: x.to_bits() }
}

#[test]
fn diagonal_2x2() {
    let idx = IndexFn::Lattice { axis_sizes: vec![2, 2] };
    let out = diagonal_multi_indices(&idx, None, false);
    assert_eq!(out, vec![vec![0, 0], vec![0, 1], vec![1, 0], vec![1, 1]]);
}

#[test]
fn diagonal_3x3_truncated() {
    let idx = IndexFn::Lattice { axis_sizes: vec![3, 3] };
    let out = diagonal_multi_indices(&idx, Some(4), false);
    assert_eq!(out.len(), 4);
    assert_eq!(out[0], vec![0, 0]);
    assert_eq!(out[1], vec![0, 1]);
    assert_eq!(out[2], vec![1, 0]);
    assert_eq!(out[3], vec![0, 2]);
}

#[test]
fn diagonal_matches_cantor_enumeration_3x3() {
    // Cantor's anti-diagonal enumeration of a 3×3 grid: group by
    // coordinate sum 0,1,2,3,4; Lex within each diagonal.
    //   Σ=0: (0,0)
    //   Σ=1: (0,1) (1,0)
    //   Σ=2: (0,2) (1,1) (2,0)
    //   Σ=3: (1,2) (2,1)
    //   Σ=4: (2,2)
    let idx = IndexFn::Lattice { axis_sizes: vec![3, 3] };
    let out = diagonal_multi_indices(&idx, None, false);
    assert_eq!(
        out,
        vec![
            vec![0, 0],
            vec![0, 1], vec![1, 0],
            vec![0, 2], vec![1, 1], vec![2, 0],
            vec![1, 2], vec![2, 1],
            vec![2, 2],
        ]
    );
    // Defining property: coordinate sums are non-decreasing.
    let sums: Vec<u64> = out.iter().map(|mi| mi.iter().sum()).collect();
    assert!(sums.windows(2).all(|w| w[0] <= w[1]), "sums not monotone: {sums:?}");
}

#[test]
fn antidiagonal_2x2() {
    let idx = IndexFn::Lattice { axis_sizes: vec![2, 2] };
    let out = diagonal_multi_indices(&idx, None, true);
    assert_eq!(out, vec![vec![1, 1], vec![0, 1], vec![1, 0], vec![0, 0]]);
}

#[test]
fn diagonal_3d_first_few() {
    let idx = IndexFn::Lattice { axis_sizes: vec![3, 3, 3] };
    let out = diagonal_multi_indices(&idx, Some(4), false);
    assert_eq!(out[0], vec![0, 0, 0]);
    assert_eq!(out[1], vec![0, 0, 1]);
    assert_eq!(out[2], vec![0, 1, 0]);
    assert_eq!(out[3], vec![1, 0, 0]);
}

#[test]
fn rejects_continuous() {
    let cont = IndexFn::Continuous {
        intervals: vec![Interval::closed(double(0.0), double(1.0))],
        measure: ProductMeasure::Uniform,
    };
    assert!(!Diagonal.accepts_input(Some(&cont)));
    assert!(!Antidiagonal.accepts_input(Some(&cont)));
}
