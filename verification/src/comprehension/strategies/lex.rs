//! The natural order: lexicographic over a grid.
use super::{index_fn_size, lattice, EvaluatedInput, MultiIndex, Strategy};
use crate::comprehension::metadata::{IndexFn, IndexFnV};
use crate::comprehension::strategy::StrategyName;
use crate::comprehension::tuple;
use crate::comprehension::tuple::{Tuple, TupleV};
use vstd::prelude::*;

verus! {

/// The multi-indices of a space in natural order. A space of one axis is
/// counted through; one with a continuous axis has no such order.
pub open spec fn lex_order(idx: IndexFnV) -> Seq<Seq<u64>> {
    match idx {
        IndexFnV::Lattice(sizes) => lattice::positions(sizes),
        IndexFnV::Lockstep(_) | IndexFnV::Modular(_) | IndexFnV::Concatenation(_) => Seq::new(
            super::space_size(idx),
            |i: int| seq![i as u64],
        ),
        _ => Seq::empty(),
    }
}

/// The first multi-indices of `idx` in natural order.
pub fn lex_multi_indices(idx: &IndexFn, truncation: Option<u64>) -> (r: Vec<MultiIndex>)
    requires
        super::countable(idx@),
    ensures
        lattice::rows(r@) == lattice::limited(lex_order(idx@), truncation),
{
    if idx.has_continuous_axis() {
        let r: Vec<MultiIndex> = Vec::new();
        assert(lattice::rows(r@) =~= lattice::limited(lex_order(idx@), truncation));
        return r;
    }
    let total: u64 = index_fn_size(idx);
    let n: u64 = match truncation {
        Some(t) => if t < total {
            t
        } else {
            total
        },
        None => total,
    };
    match idx {
        IndexFn::Lattice { axis_sizes } => {
            let r: Vec<MultiIndex> = lattice::first_positions(axis_sizes, n);
            assert(lattice::rows(r@) =~= lattice::limited(lex_order(idx@), truncation));
            r
        },
        _ => {
            let mut r: Vec<MultiIndex> = Vec::new();
            let mut i: u64 = 0;
            assert(lattice::rows(r@) =~= lex_order(idx@).take(0));
            while i < n
                invariant
                    i <= n <= super::space_size(idx@),
                    !super::has_continuous(idx@),
                    !(idx@ is Lattice),
                    lattice::rows(r@) == lex_order(idx@).take(i as int),
                decreases n - i,
            {
                let ghost before = r@;
                let one: Vec<u64> = vec![i];
                let ghost row = one@;
                assert(row =~= seq![i]);
                r.push(one);
                i = i + 1;
                assert(lattice::rows(r@) =~= lattice::rows(before).push(row));
                assert(lattice::rows(r@) =~= lex_order(idx@).take(i as int));
            }
            assert(lattice::rows(r@) =~= lattice::limited(lex_order(idx@), truncation));
            r
        },
    }
}

/// The natural order.
pub struct Lex;

impl Strategy for Lex {
    open spec fn named(&self) -> StrategyName {
        StrategyName::Lex
    }

    open spec fn accepts(&self, idx: Option<IndexFnV>) -> bool {
        true
    }

    open spec fn closed_form(&self, idx: IndexFnV) -> bool {
        true
    }

    open spec fn ordered(
        &self,
        tuples: Seq<TupleV>,
        idx: IndexFnV,
        truncation: Option<u64>,
    ) -> Seq<TupleV> {
        lattice::limited(tuples, truncation)
    }

    open spec fn within_limits(&self, idx: IndexFnV) -> bool {
        true
    }

    fn name(&self) -> StrategyName {
        StrategyName::Lex
    }

    fn accepts_input(&self, idx: Option<&IndexFn>) -> bool {
        true
    }

    fn has_closed_form_for(&self, idx: &IndexFn) -> bool {
        true
    }

    fn apply(&self, input: &EvaluatedInput, truncation: Option<u64>) -> Vec<Tuple> {
        match truncation {
            Some(n) => tuple::copy_prefix(&input.tuples, n),
            None => tuple::copy_tuples(&input.tuples),
        }
    }
}

} // verus!
