//! Choosing a strategy by its name.
use super::diagonal::{Antidiagonal, Diagonal};
use super::extrema::Extrema;
use super::lex::Lex;
use super::reverse_lex::ReverseLex;
use super::shuffle::Shuffle;
use super::{extrema, lattice, EvaluatedInput, Strategy};
use crate::comprehension::metadata::{IndexFn, IndexFnV};
use crate::comprehension::strategy::StrategyName;
use crate::comprehension::tuple::{Tuple, TupleV};
use vstd::prelude::*;

verus! {

/// A strategy chosen by its name.
#[derive(Clone, Copy, Debug, PartialEq, Eq, Structural)]
pub enum Chosen {
    Lex,
    ReverseLex,
    Shuffle,
    Extrema,
    Diagonal,
    Antidiagonal,
}

/// The strategy of a name, where this crate has one.
pub open spec fn chosen(name: StrategyName) -> Option<Chosen> {
    match name {
        StrategyName::Lex => Some(Chosen::Lex),
        StrategyName::ReverseLex => Some(Chosen::ReverseLex),
        StrategyName::Shuffle => Some(Chosen::Shuffle),
        StrategyName::Extrema => Some(Chosen::Extrema),
        StrategyName::Diagonal => Some(Chosen::Diagonal),
        StrategyName::Antidiagonal => Some(Chosen::Antidiagonal),
        _ => None,
    }
}

/// The strategy of a name, where this crate has one.
pub fn for_name(name: StrategyName) -> (r: Option<Chosen>)
    ensures
        r == chosen(name),
{
    match name {
        StrategyName::Lex => Some(Chosen::Lex),
        StrategyName::ReverseLex => Some(Chosen::ReverseLex),
        StrategyName::Shuffle => Some(Chosen::Shuffle),
        StrategyName::Extrema => Some(Chosen::Extrema),
        StrategyName::Diagonal => Some(Chosen::Diagonal),
        StrategyName::Antidiagonal => Some(Chosen::Antidiagonal),
        _ => None,
    }
}

impl Strategy for Chosen {
    open spec fn named(&self) -> StrategyName {
        match *self {
            Chosen::Lex => StrategyName::Lex,
            Chosen::ReverseLex => StrategyName::ReverseLex,
            Chosen::Shuffle => StrategyName::Shuffle,
            Chosen::Extrema => StrategyName::Extrema,
            Chosen::Diagonal => StrategyName::Diagonal,
            Chosen::Antidiagonal => StrategyName::Antidiagonal,
        }
    }

    open spec fn accepts(&self, idx: Option<IndexFnV>) -> bool {
        match *self {
            Chosen::Lex => Lex.accepts(idx),
            Chosen::ReverseLex => ReverseLex.accepts(idx),
            Chosen::Shuffle => Shuffle.accepts(idx),
            Chosen::Extrema => Extrema.accepts(idx),
            Chosen::Diagonal => Diagonal.accepts(idx),
            Chosen::Antidiagonal => Antidiagonal.accepts(idx),
        }
    }

    open spec fn closed_form(&self, idx: IndexFnV) -> bool {
        match *self {
            Chosen::Lex => Lex.closed_form(idx),
            Chosen::ReverseLex => ReverseLex.closed_form(idx),
            Chosen::Shuffle => Shuffle.closed_form(idx),
            Chosen::Extrema => Extrema.closed_form(idx),
            Chosen::Diagonal => Diagonal.closed_form(idx),
            Chosen::Antidiagonal => Antidiagonal.closed_form(idx),
        }
    }

    open spec fn ordered(
        &self,
        tuples: Seq<TupleV>,
        idx: IndexFnV,
        truncation: Option<u64>,
    ) -> Seq<TupleV> {
        match *self {
            Chosen::Lex => Lex.ordered(tuples, idx, truncation),
            Chosen::ReverseLex => ReverseLex.ordered(tuples, idx, truncation),
            Chosen::Shuffle => Shuffle.ordered(tuples, idx, truncation),
            Chosen::Extrema => Extrema.ordered(tuples, idx, truncation),
            Chosen::Diagonal => Diagonal.ordered(tuples, idx, truncation),
            Chosen::Antidiagonal => Antidiagonal.ordered(tuples, idx, truncation),
        }
    }

    open spec fn within_limits(&self, idx: IndexFnV) -> bool {
        match *self {
            Chosen::Lex => Lex.within_limits(idx),
            Chosen::ReverseLex => ReverseLex.within_limits(idx),
            Chosen::Shuffle => Shuffle.within_limits(idx),
            Chosen::Extrema => Extrema.within_limits(idx),
            Chosen::Diagonal => Diagonal.within_limits(idx),
            Chosen::Antidiagonal => Antidiagonal.within_limits(idx),
        }
    }

    fn name(&self) -> StrategyName {
        match self {
            Chosen::Lex => Lex.name(),
            Chosen::ReverseLex => ReverseLex.name(),
            Chosen::Shuffle => Shuffle.name(),
            Chosen::Extrema => Extrema.name(),
            Chosen::Diagonal => Diagonal.name(),
            Chosen::Antidiagonal => Antidiagonal.name(),
        }
    }

    fn accepts_input(&self, idx: Option<&IndexFn>) -> bool {
        match self {
            Chosen::Lex => Lex.accepts_input(idx),
            Chosen::ReverseLex => ReverseLex.accepts_input(idx),
            Chosen::Shuffle => Shuffle.accepts_input(idx),
            Chosen::Extrema => Extrema.accepts_input(idx),
            Chosen::Diagonal => Diagonal.accepts_input(idx),
            Chosen::Antidiagonal => Antidiagonal.accepts_input(idx),
        }
    }

    fn has_closed_form_for(&self, idx: &IndexFn) -> bool {
        match self {
            Chosen::Lex => Lex.has_closed_form_for(idx),
            Chosen::ReverseLex => ReverseLex.has_closed_form_for(idx),
            Chosen::Shuffle => Shuffle.has_closed_form_for(idx),
            Chosen::Extrema => Extrema.has_closed_form_for(idx),
            Chosen::Diagonal => Diagonal.has_closed_form_for(idx),
            Chosen::Antidiagonal => Antidiagonal.has_closed_form_for(idx),
        }
    }

    fn apply(&self, input: &EvaluatedInput, truncation: Option<u64>) -> Vec<Tuple> {
        match self {
            Chosen::Lex => Lex.apply(input, truncation),
            Chosen::ReverseLex => ReverseLex.apply(input, truncation),
            Chosen::Shuffle => Shuffle.apply(input, truncation),
            Chosen::Extrema => Extrema.apply(input, truncation),
            Chosen::Diagonal => Diagonal.apply(input, truncation),
            Chosen::Antidiagonal => Antidiagonal.apply(input, truncation),
        }
    }
}

/// Whether the numbers that `c` works with over `idx` fit in 64 bits.
pub fn fits(c: Chosen, idx: &IndexFn) -> (r: bool)
    ensures
        r == c.within_limits(idx@),
{
    match c {
        Chosen::Lex => true,
        Chosen::ReverseLex => true,
        Chosen::Shuffle => super::is_countable(idx) && match idx {
            IndexFn::Modular { axis_sizes } => lattice::has_no_empty_axis(axis_sizes),
            _ => true,
        },
        Chosen::Extrema => super::is_countable(idx) && extrema::strata_fit(idx),
        Chosen::Diagonal | Chosen::Antidiagonal => super::is_countable(idx),
    }
}

/// Every strategy takes a single axis of any length.
pub proof fn lemma_single_axis(c: Chosen, n: u64)
    ensures
        c.within_limits(IndexFnV::Lattice(seq![n])),
{
    lattice::lemma_volume_one(n);
    assert(seq![n].drop_first() =~= Seq::<u64>::empty());
    assert(seq![n].drop_last() =~= Seq::<u64>::empty());
}

/// The strategy of a name has that name.
pub proof fn law_chosen_name(name: StrategyName)
    ensures
        chosen(name) matches Some(c) ==> c.named() == name,
{
}

} // verus!
