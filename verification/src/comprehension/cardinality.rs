//! Cardinality classes of a comprehension's dispense stream.
//!
//! Three classes are discrete, two continuous, one is hybrid.
use crate::float::Float64;
use vstd::prelude::*;

verus! {

/// How many tuples a comprehension dispenses.
#[derive(Debug, PartialEq)]
pub enum CardinalityClass {
    /// Discrete, exactly `n` tuples.
    Bounded(u64),
    /// Discrete, between 0 and `n` tuples.
    BoundedAtMost(u64),
    /// Discrete, no known upper bound.
    Unbounded,
    /// Continuous: sampled rather than enumerated.
    Continuous { intervals: Vec<Interval>, measure: ProductMeasure },
    /// Filtered continuous.
    ContinuousAtMost { intervals: Vec<Interval>, measure_at_most: ProductMeasure },
    /// Discrete and continuous axes mixed.
    Hybrid(Hybrid),
}

/// A discrete-and-continuous shape.
#[derive(Debug, PartialEq)]
pub struct Hybrid {
    /// The sizes of the discrete axes, in declaration order.
    pub discrete_axes: Vec<u64>,
    /// The intervals of the continuous axes, in declaration order.
    pub continuous_axes: Vec<Interval>,
    /// The measure over the continuous axes.
    pub measure: ProductMeasure,
}

/// The content of a cardinality class.
#[verifier::ext_equal]
pub enum CardinalityV {
    Bounded(u64),
    BoundedAtMost(u64),
    Unbounded,
    Continuous(Seq<Interval>, MeasureV),
    ContinuousAtMost(Seq<Interval>, MeasureV),
    Hybrid(Seq<u64>, Seq<Interval>, MeasureV),
}

impl View for CardinalityClass {
    type V = CardinalityV;

    open spec fn view(&self) -> CardinalityV {
        match *self {
            CardinalityClass::Bounded(n) => CardinalityV::Bounded(n),
            CardinalityClass::BoundedAtMost(n) => CardinalityV::BoundedAtMost(n),
            CardinalityClass::Unbounded => CardinalityV::Unbounded,
            CardinalityClass::Continuous { intervals, measure } => CardinalityV::Continuous(
                intervals@,
                measure_view(measure),
            ),
            CardinalityClass::ContinuousAtMost { intervals, measure_at_most } =>
                CardinalityV::ContinuousAtMost(intervals@, measure_view(measure_at_most)),
            CardinalityClass::Hybrid(h) => CardinalityV::Hybrid(
                h.discrete_axes@,
                h.continuous_axes@,
                measure_view(h.measure),
            ),
        }
    }
}

/// A real interval. An unbounded side is an infinity.
#[derive(Clone, Copy, Debug, PartialEq, Eq, Structural)]
pub struct Interval {
    pub lo: Float64,
    pub hi: Float64,
    pub lo_open: bool,
    pub hi_open: bool,
}

impl Interval {
    /// `[lo, hi]`.
    pub fn closed(lo: Float64, hi: Float64) -> (r: Self)
        ensures
            r == (Interval { lo, hi, lo_open: false, hi_open: false }),
    {
        Interval { lo, hi, lo_open: false, hi_open: false }
    }

    /// `[lo, hi)`.
    pub fn half_open(lo: Float64, hi: Float64) -> (r: Self)
        ensures
            r == (Interval { lo, hi, lo_open: false, hi_open: true }),
    {
        Interval { lo, hi, lo_open: false, hi_open: true }
    }

    /// `(lo, hi)`.
    pub fn open(lo: Float64, hi: Float64) -> (r: Self)
        ensures
            r == (Interval { lo, hi, lo_open: true, hi_open: true }),
    {
        Interval { lo, hi, lo_open: true, hi_open: true }
    }

    /// Both ends are finite.
    pub open spec fn bounded(self) -> bool {
        self.lo.finite() && self.hi.finite()
    }

    /// Whether both ends are finite.
    pub fn is_bounded(&self) -> (r: bool)
        ensures
            r == self.bounded(),
    {
        self.lo.is_finite() && self.hi.is_finite()
    }
}

/// A named continuous distribution.
#[derive(Clone, Copy, Debug, PartialEq, Eq, Hash, Structural)]
pub enum MeasureName {
    Normal,
    Exponential,
    Pareto,
    Beta,
    LogNormal,
    Gamma,
    Uniform01,
}

impl MeasureName {
    /// Every named distribution has unit total mass.
    pub fn is_proper_probability_measure(self) -> (r: bool)
        ensures
            r == true,
    {
        true
    }
}

/// A product measure over continuous axes.
#[derive(Debug, PartialEq)]
pub enum ProductMeasure {
    Uniform,
    Named(MeasureName),
    Product(Vec<ProductMeasure>),
}

/// The content of a measure.
#[verifier::ext_equal]
pub enum MeasureV {
    Uniform,
    Named(MeasureName),
    Product(Seq<MeasureV>),
}

/// The content of a measure.
pub open spec fn measure_view(m: ProductMeasure) -> MeasureV
    decreases m, 0nat,
{
    match m {
        ProductMeasure::Uniform => MeasureV::Uniform,
        ProductMeasure::Named(n) => MeasureV::Named(n),
        ProductMeasure::Product(children) => MeasureV::Product(measure_views(children@)),
    }
}

/// The contents of a run of measures.
pub open spec fn measure_views(s: Seq<ProductMeasure>) -> Seq<MeasureV>
    decreases s, s.len(),
{
    if s.len() == 0 {
        Seq::empty()
    } else {
        measure_views(s.drop_last()).push(measure_view(s.last()))
    }
}

proof fn lemma_measure_views(s: Seq<ProductMeasure>)
    ensures
        measure_views(s).len() == s.len(),
        forall|i: int| 0 <= i < s.len() ==> #[trigger] measure_views(s)[i] == measure_view(s[i]),
    decreases s.len(),
{
    if s.len() > 0 {
        lemma_measure_views(s.drop_last());
    }
}

/// Whether a measure has finite total mass over `intervals`: the uniform
/// one where every interval is bounded, a named distribution always, a
/// product where it has one factor for each interval and each is finite
/// over its own.
pub open spec fn integrable(m: MeasureV, intervals: Seq<Interval>) -> bool
    decreases m,
{
    match m {
        MeasureV::Uniform => forall|i: int|
            0 <= i < intervals.len() ==> (#[trigger] intervals[i]).bounded(),
        MeasureV::Named(_) => true,
        MeasureV::Product(children) => {
            &&& children.len() == intervals.len()
            &&& forall|i: int|
                0 <= i < children.len() ==> integrable(
                    #[trigger] children[i],
                    seq![intervals[i]],
                )
        },
    }
}

impl ProductMeasure {
    /// The same measure.
    pub fn copy(&self) -> (r: ProductMeasure)
        ensures
            measure_view(r) == measure_view(*self),
        decreases self,
    {
        match self {
            ProductMeasure::Uniform => ProductMeasure::Uniform,
            ProductMeasure::Named(n) => ProductMeasure::Named(*n),
            ProductMeasure::Product(children) => {
                let mut out: Vec<ProductMeasure> = Vec::new();
                let mut i: usize = 0;
                while i < children.len()
                    invariant
                        i <= children.len(),
                        out.len() == i,
                        forall|k: int|
                            0 <= k < i ==> measure_view(#[trigger] out@[k]) == measure_view(
                                children@[k],
                            ),
                        *self == ProductMeasure::Product(*children),
                    decreases children.len() - i,
                {
                    assert(decreases_to!(children@ => children@[i as int]));
                    assert(decreases_to!(*self => self->Product_0));
                    assert(decreases_to!(*children => children@));
                    out.push(children[i].copy());
                    i = i + 1;
                }
                proof {
                    lemma_measure_views(out@);
                    lemma_measure_views(children@);
                    assert(measure_views(out@) =~= measure_views(children@));
                }
                ProductMeasure::Product(out)
            },
        }
    }

    /// Whether this measure has finite total mass over `intervals`.
    pub fn is_integrable(&self, intervals: &[Interval]) -> (r: bool)
        ensures
            r == integrable(measure_view(*self), intervals@),
        decreases self,
    {
        match self {
            ProductMeasure::Uniform => {
                let mut i: usize = 0;
                while i < intervals.len()
                    invariant
                        i <= intervals.len(),
                        *self is Uniform,
                        forall|k: int| 0 <= k < i ==> (#[trigger] intervals@[k]).bounded(),
                    decreases intervals.len() - i,
                {
                    if !intervals[i].is_bounded() {
                        assert(!intervals@[i as int].bounded());
                        return false;
                    }
                    i = i + 1;
                }
                true
            },
            ProductMeasure::Named(name) => name.is_proper_probability_measure(),
            ProductMeasure::Product(children) => {
                proof {
                    lemma_measure_views(children@);
                }
                if children.len() != intervals.len() {
                    return false;
                }
                let mut i: usize = 0;
                while i < children.len()
                    invariant
                        i <= children.len(),
                        children.len() == intervals.len(),
                        measure_views(children@).len() == children@.len(),
                        forall|k: int|
                            0 <= k < children@.len() ==> #[trigger] measure_views(children@)[k]
                                == measure_view(children@[k]),
                        forall|k: int|
                            0 <= k < i ==> integrable(
                                #[trigger] measure_views(children@)[k],
                                seq![intervals@[k]],
                            ),
                        *self == ProductMeasure::Product(*children),
                    decreases children.len() - i,
                {
                    let own: [Interval; 1] = [intervals[i]];
                    assert(decreases_to!(children@ => children@[i as int]));
                    assert(decreases_to!(*self => self->Product_0));
                    assert(decreases_to!(*children => children@));
                    let one: bool = children[i].is_integrable(&own);
                    assert(own@ =~= seq![intervals@[i as int]]);
                    if !one {
                        assert(!integrable(
                            measure_views(children@)[i as int],
                            seq![intervals@[i as int]],
                        ));
                        return false;
                    }
                    i = i + 1;
                }
                true
            },
        }
    }
}

} // verus!
