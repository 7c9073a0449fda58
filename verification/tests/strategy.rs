//! The names of strategies.
use polydat::comprehension::strategy::StrategyName;

#[test]
fn lex_is_the_only_streaming_strategy() {
    assert!(StrategyName::Lex.is_streaming());
    for s in [
        StrategyName::ReverseLex,
        StrategyName::Shuffle,
        StrategyName::Halton,
        StrategyName::Sobol,
        StrategyName::Lhs,
        StrategyName::Extrema,
        StrategyName::Shells,
        StrategyName::Diagonal,
        StrategyName::Antidiagonal,
    ] {
        assert!(!s.is_streaming(), "{s:?} should not be streaming");
    }
}

#[test]
fn index_sampling_strategies_classified_correctly() {
    for s in [
        StrategyName::Halton,
        StrategyName::Sobol,
        StrategyName::Lhs,
        StrategyName::Shuffle,
        StrategyName::ReverseLex,
    ] {
        assert!(s.is_index_sampling(), "{s:?} should be index-sampling");
    }
}

#[test]
fn lattice_geometric_strategies_classified_correctly() {
    for s in [
        StrategyName::Extrema,
        StrategyName::Shells,
        StrategyName::Diagonal,
        StrategyName::Antidiagonal,
    ] {
        assert!(s.is_lattice_geometric(), "{s:?} should be lattice-geometric");
    }
}

#[test]
fn strategy_classes_are_disjoint() {
    // Lex is neither index-sampling nor lattice-geometric;
    // every other strategy is in exactly one of the two
    // classes.
    for s in [
        StrategyName::ReverseLex,
        StrategyName::Shuffle,
        StrategyName::Halton,
        StrategyName::Sobol,
        StrategyName::Lhs,
        StrategyName::Extrema,
        StrategyName::Shells,
        StrategyName::Diagonal,
        StrategyName::Antidiagonal,
    ] {
        let sampling = s.is_index_sampling();
        let geometric = s.is_lattice_geometric();
        assert!(sampling ^ geometric, "{s:?} must be in exactly one class");
    }
}

