//! The natural order, reversed.
use super::{lattice, lex, EvaluatedInput, MultiIndex, Strategy};
use crate::comprehension::metadata::{IndexFn, IndexFnV};
use crate::comprehension::strategy::StrategyName;
use crate::comprehension::tuple;
use crate::comprehension::tuple::{Tuple, TupleV};
use vstd::prelude::*;

verus! {

/// The natural order, reversed.
pub struct ReverseLex;

impl Strategy for ReverseLex {
    open spec fn named(&self) -> StrategyName {
        StrategyName::ReverseLex
    }

    open spec fn accepts(&self, idx: Option<IndexFnV>) -> bool {
        idx matches Some(i) && !super::has_continuous(i)
    }

    open spec fn closed_form(&self, idx: IndexFnV) -> bool {
        !super::has_continuous(idx)
    }

    open spec fn ordered(
        &self,
        tuples: Seq<TupleV>,
        idx: IndexFnV,
        truncation: Option<u64>,
    ) -> Seq<TupleV> {
        lattice::limited(tuples.reverse(), truncation)
    }

    open spec fn within_limits(&self, idx: IndexFnV) -> bool {
        true
    }

    fn name(&self) -> StrategyName {
        StrategyName::ReverseLex
    }

    fn accepts_input(&self, idx: Option<&IndexFn>) -> bool {
        match idx {
            None => false,
            Some(i) => !i.has_continuous_axis(),
        }
    }

    fn has_closed_form_for(&self, idx: &IndexFn) -> bool {
        !idx.has_continuous_axis()
    }

    fn apply(&self, input: &EvaluatedInput, truncation: Option<u64>) -> Vec<Tuple> {
        let n: usize = input.tuples.len();
        let keep: u64 = match truncation {
            Some(t) => if t < n as u64 {
                t
            } else {
                n as u64
            },
            None => n as u64,
        };
        let ghost all = tuple::tuple_views(input.tuples@).reverse();
        let mut out: Vec<Tuple> = Vec::new();
        let mut i: u64 = 0;
        assert(tuple::tuple_views(out@) =~= all.take(0));
        while i < keep
            invariant
                i <= keep <= n,
                n == input.tuples@.len(),
                all == tuple::tuple_views(input.tuples@).reverse(),
                tuple::tuple_views(out@) == all.take(i as int),
            decreases keep - i,
        {
            let ghost before = out@;
            let t: Tuple = input.tuples[n - 1 - i as usize].clone();
            let ghost tv = t@;
            out.push(t);
            i = i + 1;
            assert(tuple::tuple_views(out@) =~= tuple::tuple_views(before).push(tv));
            assert(tuple::tuple_views(out@) =~= all.take(i as int));
        }
        assert(all.take(n as int) =~= all);
        out
    }
}

/// The first multi-indices of `idx` in reversed natural order.
pub fn reverse_lex_multi_indices(idx: &IndexFn, truncation: Option<u64>) -> (r: Vec<MultiIndex>)
    requires
        super::countable(idx@),
    ensures
        lattice::rows(r@) == lattice::limited(lex::lex_order(idx@).reverse(), truncation),
{
    let mut all: Vec<MultiIndex> = lex::lex_multi_indices(idx, None);
    let ghost order = lex::lex_order(idx@);
    let n: usize = all.len();
    assert(lattice::rows(all@).len() == n);
    let keep: u64 = match truncation {
        Some(t) => if t < n as u64 {
            t
        } else {
            n as u64
        },
        None => n as u64,
    };
    let mut out: Vec<MultiIndex> = Vec::new();
    let mut i: u64 = 0;
    assert(lattice::rows(out@) =~= order.reverse().take(0));
    assert(order.take(n as int) =~= order);
    while i < keep
        invariant
            i <= keep <= n,
            n == order.len(),
            all@.len() == n - i,
            lattice::rows(all@) == order.take(n - i),
            lattice::rows(out@) == order.reverse().take(i as int),
        decreases keep - i,
    {
        let ghost before = out@;
        let ghost rest = all@;
        match all.pop() {
            Some(mi) => {
                let ghost row = mi@;
                assert(row == lattice::rows(rest)[n - i - 1]);
                out.push(mi);
                i = i + 1;
                assert(lattice::rows(out@) =~= lattice::rows(before).push(row));
                assert(lattice::rows(out@) =~= order.reverse().take(i as int));
                assert(lattice::rows(all@) =~= lattice::rows(rest).drop_last());
                assert(lattice::rows(all@) =~= order.take(n - i));
            },
            None => {
                return out;
            },
        }
    }
    assert(order.reverse().take(n as int) =~= order.reverse());
    out
}

/// Reversing twice gives the natural order back.
pub proof fn law_reverse_twice(tuples: Seq<TupleV>, idx: IndexFnV)
    ensures
        ReverseLex.ordered(ReverseLex.ordered(tuples, idx, None), idx, None) == tuples,
{
    assert(tuples.reverse().reverse() =~= tuples);
}

} // verus!
