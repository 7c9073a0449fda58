//! Metadata that a comprehension carries: its cardinality, how its tuples
//! are addressed, and how it is enumerated.
use crate::comprehension::cardinality;
use crate::comprehension::cardinality::{
    CardinalityClass, Interval, MeasureV, ProductMeasure,
};
use crate::value::same_items;
use vstd::prelude::*;

verus! {

/// How the tuples of an evaluated comprehension are addressed.
#[derive(Debug, PartialEq)]
pub enum IndexFn {
    /// A grid: the last axis varies fastest.
    Lattice { axis_sizes: Vec<u64> },
    /// Axes that advance together.
    Lockstep { length: u64 },
    /// Axes that advance together, the shorter ones repeating.
    Modular { axis_sizes: Vec<u64> },
    /// Segments one after the other.
    Concatenation { segment_sizes: Vec<u64> },
    /// A continuous box.
    Continuous { intervals: Vec<Interval>, measure: ProductMeasure },
    /// Discrete axes, then continuous ones.
    Hybrid { discrete_axes: Vec<u64>, continuous_axes: Vec<Interval>, measure: ProductMeasure },
}

/// The content of an addressing scheme.
#[verifier::ext_equal]
pub enum IndexFnV {
    Lattice(Seq<u64>),
    Lockstep(u64),
    Modular(Seq<u64>),
    Concatenation(Seq<u64>),
    Continuous(Seq<Interval>, MeasureV),
    Hybrid(Seq<u64>, Seq<Interval>, MeasureV),
}

impl View for IndexFn {
    type V = IndexFnV;

    open spec fn view(&self) -> IndexFnV {
        match *self {
            IndexFn::Lattice { axis_sizes } => IndexFnV::Lattice(axis_sizes@),
            IndexFn::Lockstep { length } => IndexFnV::Lockstep(length),
            IndexFn::Modular { axis_sizes } => IndexFnV::Modular(axis_sizes@),
            IndexFn::Concatenation { segment_sizes } => IndexFnV::Concatenation(segment_sizes@),
            IndexFn::Continuous { intervals, measure } => IndexFnV::Continuous(
                intervals@,
                cardinality::measure_view(measure),
            ),
            IndexFn::Hybrid { discrete_axes, continuous_axes, measure } => IndexFnV::Hybrid(
                discrete_axes@,
                continuous_axes@,
                cardinality::measure_view(measure),
            ),
        }
    }
}

impl IndexFn {
    /// A continuous axis takes part.
    pub open spec fn continuous(self) -> bool {
        self is Continuous || self is Hybrid
    }

    /// Whether a continuous axis takes part.
    pub fn has_continuous_axis(&self) -> (r: bool)
        ensures
            r == self.continuous(),
    {
        match self {
            IndexFn::Continuous { .. } | IndexFn::Hybrid { .. } => true,
            _ => false,
        }
    }

    /// The same addressing scheme.
    pub fn copy(&self) -> (r: IndexFn)
        ensures
            r@ == self@,
    {
        match self {
            IndexFn::Lattice { axis_sizes } => IndexFn::Lattice {
                axis_sizes: same_items(axis_sizes),
            },
            IndexFn::Lockstep { length } => IndexFn::Lockstep { length: *length },
            IndexFn::Modular { axis_sizes } => IndexFn::Modular {
                axis_sizes: same_items(axis_sizes),
            },
            IndexFn::Concatenation { segment_sizes } => IndexFn::Concatenation {
                segment_sizes: same_items(segment_sizes),
            },
            IndexFn::Continuous { intervals, measure } => IndexFn::Continuous {
                intervals: same_items(intervals),
                measure: measure.copy(),
            },
            IndexFn::Hybrid { discrete_axes, continuous_axes, measure } => IndexFn::Hybrid {
                discrete_axes: same_items(discrete_axes),
                continuous_axes: same_items(continuous_axes),
                measure: measure.copy(),
            },
        }
    }
}

/// The order in which a comprehension enumerates by itself.
#[derive(Clone, Copy, Debug, PartialEq, Eq, Structural)]
pub enum NaturalOrder {
    Lex,
}

/// Whether a comprehension streams or holds its tuples.
#[derive(Clone, Copy, Debug, PartialEq, Eq, Structural)]
pub enum Materialization {
    Streaming,
    Barrier,
}

/// What a comprehension's structure says of it.
#[derive(Debug, PartialEq)]
pub struct Metadata {
    pub cardinality: CardinalityClass,
    pub index_addressable: Option<IndexFn>,
    pub natural_order: NaturalOrder,
    pub materialization: Materialization,
}

/// The content of an addressing scheme that may not be known.
pub open spec fn index_view(idx: Option<IndexFn>) -> Option<IndexFnV> {
    match idx {
        Some(i) => Some(i@),
        None => None,
    }
}

/// The contents of a run of addressing schemes.
pub open spec fn index_views(s: Seq<Option<IndexFn>>) -> Seq<Option<IndexFnV>> {
    Seq::new(s.len(), |i: int| index_view(s[i]))
}

/// The axes that a child contributes to a grid: those of a grid, the one of
/// a lockstep; other schemes contribute none.
pub open spec fn grid_axes(idx: Option<IndexFnV>) -> Option<Seq<u64>> {
    match idx {
        Some(IndexFnV::Lattice(sizes)) => Some(sizes),
        Some(IndexFnV::Lockstep(n)) => Some(seq![n]),
        _ => None,
    }
}

/// The axes of a run of children together, where each contributes.
pub open spec fn all_grid_axes(s: Seq<Option<IndexFnV>>) -> Option<Seq<u64>>
    decreases s.len(),
{
    if s.len() == 0 {
        Some(Seq::empty())
    } else {
        match (all_grid_axes(s.drop_last()), grid_axes(s.last())) {
            (Some(a), Some(b)) => Some(a + b),
            _ => None,
        }
    }
}

/// How a product of children is addressed.
pub open spec fn product_index(s: Seq<Option<IndexFnV>>) -> Option<IndexFnV> {
    match all_grid_axes(s) {
        Some(axes) => Some(IndexFnV::Lattice(axes)),
        None => None,
    }
}

proof fn lemma_grid_axes_prefix(s: Seq<Option<IndexFnV>>, k: int)
    requires
        0 <= k <= s.len(),
        all_grid_axes(s.take(k)) is None,
    ensures
        all_grid_axes(s) is None,
    decreases s.len(),
{
    if k == s.len() {
        assert(s.take(k) =~= s);
    } else {
        assert(s.drop_last().take(k) =~= s.take(k));
        lemma_grid_axes_prefix(s.drop_last(), k);
    }
}

/// How a product of children is addressed.
pub fn combine_cartesian_index_fn(children: &Vec<Option<IndexFn>>) -> (r: Option<IndexFn>)
    ensures
        index_view(r) == product_index(index_views(children@)),
{
    let ghost all = index_views(children@);
    let mut axis_sizes: Vec<u64> = Vec::new();
    let mut i: usize = 0;
    assert(all.take(0) =~= Seq::<Option<IndexFnV>>::empty());
    while i < children.len()
        invariant
            i <= children@.len(),
            all == index_views(children@),
            all_grid_axes(all.take(i as int)) == Some(axis_sizes@),
        decreases children.len() - i,
    {
        proof {
            assert(all.take(i + 1).drop_last() =~= all.take(i as int));
            assert(all.take(i + 1).last() == index_view(children@[i as int]));
        }
        match &children[i] {
            Some(IndexFn::Lattice { axis_sizes: a }) => {
                let ghost before = axis_sizes@;
                let mut more: Vec<u64> = same_items(a);
                axis_sizes.append(&mut more);
                assert(axis_sizes@ =~= before + a@);
            },
            Some(IndexFn::Lockstep { length }) => {
                let ghost before = axis_sizes@;
                axis_sizes.push(*length);
                assert(axis_sizes@ =~= before + seq![*length]);
            },
            _ => {
                proof {
                    lemma_grid_axes_prefix(all, i + 1);
                }
                return None;
            },
        }
        i = i + 1;
    }
    assert(all.take(i as int) =~= all);
    Some(IndexFn::Lattice { axis_sizes })
}

} // verus!
