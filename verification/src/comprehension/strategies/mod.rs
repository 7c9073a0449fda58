//! Ordering strategies over an evaluated comprehension's tuples.
//!
//! A strategy reorders, and may cut, the tuples of an evaluated input. Where
//! the input is addressed by a grid or a single axis, a strategy gives the
//! multi-indices in its order and each is looked up among the tuples.
pub mod diagonal;
pub mod dispatch;
pub mod extrema;
pub mod lattice;
pub mod lex;
pub mod prng;
pub mod reverse_lex;
pub mod shuffle;
pub mod strategy_laws;

use crate::comprehension::metadata::{IndexFn, IndexFnV};
use crate::comprehension::strategy::StrategyName;
use crate::comprehension::tuple;
use crate::comprehension::tuple::{Tuple, TupleV};
use vstd::prelude::*;

verus! {

/// A position in an index space.
pub type MultiIndex = Vec<u64>;

/// Tuples with the scheme that addresses them.
#[derive(Debug)]
pub struct EvaluatedInput {
    pub tuples: Vec<Tuple>,
    pub cardinality: u64,
    pub index_fn: IndexFn,
}

/// The sum of a run of sizes.
pub open spec fn total_of(s: Seq<u64>) -> nat
    decreases s.len(),
{
    if s.len() == 0 {
        0
    } else {
        total_of(s.drop_last()) + s.last() as nat
    }
}

/// The largest of a run of sizes; zero where there is none.
pub open spec fn largest_of(s: Seq<u64>) -> u64
    decreases s.len(),
{
    if s.len() == 0 {
        0
    } else if s.last() > largest_of(s.drop_last()) {
        s.last()
    } else {
        largest_of(s.drop_last())
    }
}

/// The number of positions of an index space. A space with a continuous
/// axis has more than can be counted; `u64::MAX` stands for that.
pub open spec fn space_size(idx: IndexFnV) -> nat {
    match idx {
        IndexFnV::Lattice(sizes) => lattice::volume(sizes),
        IndexFnV::Lockstep(n) => n as nat,
        IndexFnV::Modular(sizes) => largest_of(sizes) as nat,
        IndexFnV::Concatenation(sizes) => total_of(sizes),
        IndexFnV::Continuous(_, _) => u64::MAX as nat,
        IndexFnV::Hybrid(_, _, _) => u64::MAX as nat,
    }
}

/// The number of axes of an index space.
pub open spec fn space_dim(idx: IndexFnV) -> nat {
    match idx {
        IndexFnV::Lattice(sizes) => sizes.len(),
        IndexFnV::Lockstep(_) => 1,
        IndexFnV::Modular(_) => 1,
        IndexFnV::Concatenation(_) => 1,
        IndexFnV::Continuous(intervals, _) => intervals.len(),
        IndexFnV::Hybrid(discrete, continuous, _) => discrete.len() + continuous.len(),
    }
}

/// A continuous axis takes part.
pub open spec fn has_continuous(idx: IndexFnV) -> bool {
    idx is Continuous || idx is Hybrid
}

/// The place among the tuples that a multi-index addresses. A single
/// number addresses a space of one axis; a multi-index with a number for
/// each axis addresses a grid, or the axes that repeat together.
pub open spec fn flat_of(idx: IndexFnV, mi: Seq<u64>) -> Option<nat> {
    match idx {
        IndexFnV::Lattice(sizes) => if lattice::inside(mi, sizes) {
            Some(lattice::place(mi, sizes))
        } else {
            None
        },
        IndexFnV::Modular(sizes) => if mi.len() == 1 && mi[0] < largest_of(sizes) {
            Some(mi[0] as nat)
        } else if mi.len() != 1 && lattice::inside(mi, sizes) {
            Some(lattice::place(mi, sizes))
        } else {
            None
        },
        IndexFnV::Lockstep(_) | IndexFnV::Concatenation(_) => if mi.len() == 1 && mi[0]
            < space_size(idx) {
            Some(mi[0] as nat)
        } else {
            None
        },
        _ => None,
    }
}

/// The tuples that a run of multi-indices addresses; those that address
/// none are passed over.
pub open spec fn looked_up(mis: Seq<Seq<u64>>, idx: IndexFnV, tuples: Seq<TupleV>) -> Seq<TupleV>
    decreases mis.len(),
{
    if mis.len() == 0 {
        Seq::empty()
    } else {
        let front = looked_up(mis.drop_last(), idx, tuples);
        match flat_of(idx, mis.last()) {
            Some(f) => if f < tuples.len() {
                front.push(tuples[f as int])
            } else {
                front
            },
            None => front,
        }
    }
}

/// Whether the numbers that describe an index space fit in 64 bits.
pub open spec fn countable(idx: IndexFnV) -> bool {
    match idx {
        IndexFnV::Lattice(sizes) => lattice::volume(sizes) <= u64::MAX,
        IndexFnV::Modular(sizes) => lattice::volume(sizes) <= u64::MAX,
        IndexFnV::Concatenation(sizes) => total_of(sizes) <= u64::MAX,
        _ => true,
    }
}

proof fn lemma_total_grows(s: Seq<u64>, k: int)
    requires
        0 <= k <= s.len(),
    ensures
        total_of(s.take(k)) <= total_of(s),
    decreases s.len(),
{
    if k == s.len() {
        assert(s.take(k) =~= s);
    } else {
        lemma_total_grows(s.drop_last(), k);
        assert(s.drop_last().take(k) =~= s.take(k));
    }
}

/// The sum of a run of sizes, or `u64::MAX` where it is larger.
fn saturating_total(sizes: &Vec<u64>) -> (r: u64)
    ensures
        r == if total_of(sizes@) <= u64::MAX {
            total_of(sizes@) as u64
        } else {
            u64::MAX
        },
{
    let mut acc: u64 = 0;
    let mut i: usize = 0;
    assert(sizes@.take(0) =~= Seq::<u64>::empty());
    while i < sizes.len()
        invariant
            i <= sizes@.len(),
            acc == (if total_of(sizes@.take(i as int)) <= u64::MAX {
                total_of(sizes@.take(i as int)) as u64
            } else {
                u64::MAX
            }),
        decreases sizes.len() - i,
    {
        assert(sizes@.take(i + 1).drop_last() =~= sizes@.take(i as int));
        acc = acc.saturating_add(sizes[i]);
        i = i + 1;
    }
    assert(sizes@.take(i as int) =~= sizes@);
    acc
}

/// The largest of a run of sizes; zero where there is none.
pub fn largest(sizes: &Vec<u64>) -> (r: u64)
    ensures
        r == largest_of(sizes@),
{
    let mut acc: u64 = 0;
    let mut i: usize = 0;
    assert(sizes@.take(0) =~= Seq::<u64>::empty());
    while i < sizes.len()
        invariant
            i <= sizes@.len(),
            acc == largest_of(sizes@.take(i as int)),
        decreases sizes.len() - i,
    {
        assert(sizes@.take(i + 1).drop_last() =~= sizes@.take(i as int));
        if sizes[i] > acc {
            acc = sizes[i];
        }
        i = i + 1;
    }
    assert(sizes@.take(i as int) =~= sizes@);
    acc
}

/// The number of positions of an index space, at most `u64::MAX`.
pub fn index_fn_size(idx: &IndexFn) -> (r: u64)
    ensures
        r == if space_size(idx@) <= u64::MAX {
            space_size(idx@) as u64
        } else {
            u64::MAX
        },
{
    match idx {
        IndexFn::Lattice { axis_sizes } => lattice::saturating_volume(axis_sizes),
        IndexFn::Lockstep { length } => *length,
        IndexFn::Modular { axis_sizes } => largest(axis_sizes),
        IndexFn::Concatenation { segment_sizes } => saturating_total(segment_sizes),
        IndexFn::Continuous { .. } => u64::MAX,
        IndexFn::Hybrid { .. } => u64::MAX,
    }
}

/// Whether the sum of a run of sizes fits in 64 bits.
fn total_fits(sizes: &Vec<u64>) -> (r: bool)
    ensures
        r == (total_of(sizes@) <= u64::MAX),
{
    let mut acc: u64 = 0;
    let mut i: usize = 0;
    assert(sizes@.take(0) =~= Seq::<u64>::empty());
    while i < sizes.len()
        invariant
            i <= sizes@.len(),
            acc == total_of(sizes@.take(i as int)),
        decreases sizes.len() - i,
    {
        assert(sizes@.take(i + 1).drop_last() =~= sizes@.take(i as int));
        if sizes[i] > u64::MAX - acc {
            proof {
                lemma_total_grows(sizes@, i + 1);
            }
            return false;
        }
        acc = acc + sizes[i];
        i = i + 1;
    }
    assert(sizes@.take(i as int) =~= sizes@);
    true
}

/// Whether the numbers that describe `idx` fit in 64 bits.
pub fn is_countable(idx: &IndexFn) -> (r: bool)
    ensures
        r == countable(idx@),
{
    match idx {
        IndexFn::Lattice { axis_sizes } => lattice::volume_fits(axis_sizes),
        IndexFn::Modular { axis_sizes } => lattice::volume_fits(axis_sizes),
        IndexFn::Concatenation { segment_sizes } => total_fits(segment_sizes),
        _ => true,
    }
}

/// Whether multi-indices of the space can be looked up among tuples.
pub fn index_fn_supports_lookup(idx: &IndexFn) -> (r: bool)
    ensures
        r == !has_continuous(idx@),
{
    !idx.has_continuous_axis()
}

/// The place among the tuples that `mi` addresses.
pub fn multi_index_to_flat(idx: &IndexFn, mi: &MultiIndex) -> (r: Option<u64>)
    requires
        countable(idx@),
    ensures
        r matches Some(f) ==> flat_of(idx@, mi@) == Some(f as nat),
        r is None ==> flat_of(idx@, mi@) is None,
{
    match idx {
        IndexFn::Lattice { axis_sizes } => lattice::multi_to_linear(mi, axis_sizes),
        IndexFn::Modular { axis_sizes } => {
            if mi.len() == 1 {
                if mi[0] < largest(axis_sizes) {
                    Some(mi[0])
                } else {
                    None
                }
            } else {
                lattice::multi_to_linear(mi, axis_sizes)
            }
        },
        IndexFn::Lockstep { length } => {
            if mi.len() == 1 && mi[0] < *length {
                Some(mi[0])
            } else {
                None
            }
        },
        IndexFn::Concatenation { segment_sizes } => {
            if mi.len() == 1 && mi[0] < saturating_total(segment_sizes) {
                Some(mi[0])
            } else {
                None
            }
        },
        _ => None,
    }
}

/// The tuples that `mis` addresses.
pub fn look_up(mis: &Vec<MultiIndex>, input: &EvaluatedInput) -> (r: Vec<Tuple>)
    requires
        countable(input.index_fn@),
    ensures
        tuple::tuple_views(r@) == looked_up(
            lattice::rows(mis@),
            input.index_fn@,
            tuple::tuple_views(input.tuples@),
        ),
{
    let mut out: Vec<Tuple> = Vec::new();
    let mut i: usize = 0;
    let ghost all = lattice::rows(mis@);
    let ghost tuples = tuple::tuple_views(input.tuples@);
    assert(all.take(0) =~= Seq::<Seq<u64>>::empty());
    assert(tuple::tuple_views(out@) =~= Seq::<TupleV>::empty());
    while i < mis.len()
        invariant
            i <= mis@.len(),
            all == lattice::rows(mis@),
            tuples == tuple::tuple_views(input.tuples@),
            countable(input.index_fn@),
            tuple::tuple_views(out@) == looked_up(all.take(i as int), input.index_fn@, tuples),
        decreases mis.len() - i,
    {
        assert(all.take(i + 1).drop_last() =~= all.take(i as int));
        assert(all.take(i + 1).last() == mis@[i as int]@);
        let ghost before = out@;
        match multi_index_to_flat(&input.index_fn, &mis[i]) {
            Some(f) => {
                if f < input.tuples.len() as u64 {
                    let t: Tuple = input.tuples[f as usize].clone();
                    let ghost tv = t@;
                    out.push(t);
                    assert(tuple::tuple_views(out@) =~= tuple::tuple_views(before).push(tv));
                }
            },
            None => {},
        }
        i = i + 1;
    }
    assert(all.take(i as int) =~= all);
    out
}

/// An ordering strategy.
pub trait Strategy {
    /// The name.
    spec fn named(&self) -> StrategyName;

    /// Whether the strategy takes an input addressed this way.
    spec fn accepts(&self, idx: Option<IndexFnV>) -> bool;

    /// Whether the strategy has a closed form over this addressing.
    spec fn closed_form(&self, idx: IndexFnV) -> bool;

    /// The tuples that the strategy gives, in its order.
    spec fn ordered(&self, tuples: Seq<TupleV>, idx: IndexFnV, truncation: Option<u64>) -> Seq<
        TupleV,
    >;

    /// Whether the numbers that the strategy works with fit in 64 bits and
    /// no axis that it divides by is empty.
    spec fn within_limits(&self, idx: IndexFnV) -> bool;

    /// The name.
    fn name(&self) -> (r: StrategyName)
        ensures
            r == self.named(),
    ;

    /// Whether the strategy takes an input addressed by `idx`.
    fn accepts_input(&self, idx: Option<&IndexFn>) -> (r: bool)
        ensures
            r == self.accepts(
                match idx {
                    Some(i) => Some(i@),
                    None => None,
                },
            ),
    ;

    /// Whether the strategy has a closed form over `idx`.
    fn has_closed_form_for(&self, idx: &IndexFn) -> (r: bool)
        ensures
            r == self.closed_form(idx@),
    ;

    /// The tuples of `input` in the strategy's order, cut by `truncation`.
    fn apply(&self, input: &EvaluatedInput, truncation: Option<u64>) -> (r: Vec<Tuple>)
        requires
            self.within_limits(input.index_fn@),
        ensures
            tuple::tuple_views(r@) == self.ordered(
                tuple::tuple_views(input.tuples@),
                input.index_fn@,
                truncation,
            ),
    ;
}

} // verus!
