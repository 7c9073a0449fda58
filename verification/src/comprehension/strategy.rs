//! The named ordering strategies, and the zip modes.
use vstd::prelude::*;

verus! {

/// A named ordering strategy.
#[derive(Clone, Copy, Debug, PartialEq, Eq, Hash, Structural)]
pub enum StrategyName {
    /// Natural enumeration order; the only streaming strategy.
    Lex,
    /// The natural order, reversed.
    ReverseLex,
    /// A random permutation.
    Shuffle,
    /// Halton low-discrepancy sequence.
    Halton,
    /// Sobol low-discrepancy sequence.
    Sobol,
    /// Latin hypercube sampling.
    Lhs,
    /// Corners first, then edges, faces and the inside.
    Extrema,
    /// Concentric shells.
    Shells,
    /// Ascending index sums.
    Diagonal,
    /// Descending index sums.
    Antidiagonal,
}

impl StrategyName {
    /// Halton, Sobol, Lhs, Shuffle and ReverseLex.
    pub open spec fn samples(self) -> bool {
        self is Halton || self is Sobol || self is Lhs || self is Shuffle || self is ReverseLex
    }

    /// Extrema, Shells, Diagonal and Antidiagonal.
    pub open spec fn geometric(self) -> bool {
        self is Extrema || self is Shells || self is Diagonal || self is Antidiagonal
    }

    /// The name in surface syntax.
    pub open spec fn text(self) -> Seq<char> {
        match self {
            StrategyName::Lex => "lex"@,
            StrategyName::ReverseLex => "reverse_lex"@,
            StrategyName::Shuffle => "shuffle"@,
            StrategyName::Halton => "halton"@,
            StrategyName::Sobol => "sobol"@,
            StrategyName::Lhs => "lhs"@,
            StrategyName::Extrema => "extrema"@,
            StrategyName::Shells => "shells"@,
            StrategyName::Diagonal => "diagonal"@,
            StrategyName::Antidiagonal => "antidiagonal"@,
        }
    }

    /// Whether the strategy passes tuples through as they come.
    pub fn is_streaming(self) -> (r: bool)
        ensures
            r == (self is Lex),
    {
        matches!(self, StrategyName::Lex)
    }

    /// Whether the strategy samples an index space without geometry.
    pub fn is_index_sampling(self) -> (r: bool)
        ensures
            r == self.samples(),
    {
        matches!(
            self,
            StrategyName::Halton
                | StrategyName::Sobol
                | StrategyName::Lhs
                | StrategyName::Shuffle
                | StrategyName::ReverseLex
        )
    }

    /// Whether the strategy is a measure on a lattice.
    pub fn is_lattice_geometric(self) -> (r: bool)
        ensures
            r == self.geometric(),
    {
        matches!(
            self,
            StrategyName::Extrema
                | StrategyName::Shells
                | StrategyName::Diagonal
                | StrategyName::Antidiagonal
        )
    }

    /// The name in surface syntax.
    pub fn as_str(self) -> (r: &'static str)
        ensures
            r@ == self.text(),
    {
        match self {
            StrategyName::Lex => "lex",
            StrategyName::ReverseLex => "reverse_lex",
            StrategyName::Shuffle => "shuffle",
            StrategyName::Halton => "halton",
            StrategyName::Sobol => "sobol",
            StrategyName::Lhs => "lhs",
            StrategyName::Extrema => "extrema",
            StrategyName::Shells => "shells",
            StrategyName::Diagonal => "diagonal",
            StrategyName::Antidiagonal => "antidiagonal",
        }
    }
}

/// Every strategy is in exactly one of three classes: streaming,
/// index-sampling, lattice-geometric.
pub proof fn law_strategy_classes(s: StrategyName)
    ensures
        (s is Lex) ==> !s.samples() && !s.geometric(),
        !(s is Lex) ==> (s.samples() <==> !s.geometric()),
{
}

/// Two strategies have different names.
pub proof fn law_strategy_names_differ(a: StrategyName, b: StrategyName)
    requires
        a.text() == b.text(),
    ensures
        a == b,
{
    reveal_strlit("lex");
    reveal_strlit("reverse_lex");
    reveal_strlit("shuffle");
    reveal_strlit("halton");
    reveal_strlit("sobol");
    reveal_strlit("lhs");
    reveal_strlit("extrema");
    reveal_strlit("shells");
    reveal_strlit("diagonal");
    reveal_strlit("antidiagonal");
    let x = a.text();
    let y = b.text();
    assert(x.len() == y.len() && x[0] == y[0] && x[1] == y[1]);
    match a {
        StrategyName::Lex => {},
        StrategyName::ReverseLex => {},
        StrategyName::Shuffle => {},
        StrategyName::Halton => {},
        StrategyName::Sobol => {},
        StrategyName::Lhs => {},
        StrategyName::Extrema => {},
        StrategyName::Shells => {},
        StrategyName::Diagonal => {},
        StrategyName::Antidiagonal => {},
    }
}

/// How parallel streams are combined.
#[derive(Clone, Copy, Debug, PartialEq, Eq, Hash, Structural)]
pub enum ZipMode {
    /// Lengths have to agree.
    Strict,
    /// Cut to the shortest.
    Truncate,
    /// Repeat the shorter ones to the longest.
    Cycle,
}

impl ZipMode {
    /// The name in surface syntax.
    pub open spec fn text(self) -> Seq<char> {
        match self {
            ZipMode::Strict => "strict"@,
            ZipMode::Truncate => "truncate"@,
            ZipMode::Cycle => "cycle"@,
        }
    }

    /// The name in surface syntax.
    pub fn as_str(self) -> (r: &'static str)
        ensures
            r@ == self.text(),
    {
        match self {
            ZipMode::Strict => "strict",
            ZipMode::Truncate => "truncate",
            ZipMode::Cycle => "cycle",
        }
    }
}

} // verus!
