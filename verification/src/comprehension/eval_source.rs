//! Source evaluation: the values of a source and how they are addressed.
use crate::comprehension::cardinality;
use crate::comprehension::cardinality::{MeasureV, ProductMeasure};
use crate::comprehension::metadata::{IndexFn, IndexFnV};
use crate::comprehension::source;
use crate::comprehension::source::{LiteralV, LiteralValue, Source, SourceV};
use crate::value;
use crate::value::{Datum, DatumV};
use vstd::prelude::*;

verus! {

/// The values of a source, how many there are, and how they are addressed.
#[derive(Debug)]
pub struct EvaluatedSource {
    pub values: Vec<Datum>,
    pub cardinality: u64,
    pub index_fn: IndexFn,
}

/// What a source needs to be evaluated.
#[derive(Clone, Copy, Debug, PartialEq, Eq, Structural)]
pub enum EvalClass {
    /// Nothing.
    Static,
    /// The values that its text stands for.
    ContextRequired,
    /// Nothing; its values are drawn by a sampling order.
    Distribution,
}

/// Why a source has no values.
#[derive(Debug, PartialEq)]
pub enum EvalError {
    /// The source needs a context and none was given.
    NeedsContext,
    /// The text of the source does not evaluate.
    EvalFailed { var: String, source: String, message: String },
}

/// The content of an evaluation error.
#[verifier::ext_equal]
pub enum EvalErrorV {
    NeedsContext,
    EvalFailed(Seq<char>, Seq<char>, Seq<char>),
}

impl View for EvalError {
    type V = EvalErrorV;

    open spec fn view(&self) -> EvalErrorV {
        match *self {
            EvalError::NeedsContext => EvalErrorV::NeedsContext,
            EvalError::EvalFailed { var, source, message } => EvalErrorV::EvalFailed(
                var@,
                source@,
                message@,
            ),
        }
    }
}

/// The text of an evaluation error.
pub open spec fn error_text(e: EvalErrorV) -> Seq<char> {
    match e {
        EvalErrorV::NeedsContext => "source evaluation needs a kernel context"@,
        EvalErrorV::EvalFailed(var, source, message) => "source '"@ + var + " in "@ + source
            + "': "@ + message,
    }
}

impl EvalError {
    /// The text of the error.
    pub fn to_string(&self) -> (r: String)
        ensures
            r@ == error_text(self@),
    {
        match self {
            EvalError::NeedsContext => "source evaluation needs a kernel context".to_owned(),
            EvalError::EvalFailed { var, source, message } => {
                let mut out: String = "source '".to_owned();
                out.append(var.as_str());
                out.append(" in ");
                out.append(source.as_str());
                out.append("': ");
                out.append(message.as_str());
                out
            },
        }
    }
}

/// What evaluating the text of a clause's source came to.
#[derive(Debug)]
pub struct EvalContext {
    /// The name that the clause binds.
    pub var_name: String,
    /// The values that the text stands for, or why it does not evaluate.
    pub outcome: Result<Vec<Datum>, String>,
}

/// The content of an evaluation context.
#[verifier::ext_equal]
pub struct EvalContextV {
    pub var_name: Seq<char>,
    pub outcome: OutcomeV,
}

/// The content of an evaluation outcome.
#[verifier::ext_equal]
pub enum OutcomeV {
    Values(Seq<DatumV>),
    Failed(Seq<char>),
}

/// The content of an evaluation outcome.
pub open spec fn outcome_view(o: Result<Vec<Datum>, String>) -> OutcomeV {
    match o {
        Ok(values) => OutcomeV::Values(value::views(values@)),
        Err(message) => OutcomeV::Failed(message@),
    }
}

impl View for EvalContext {
    type V = EvalContextV;

    open spec fn view(&self) -> EvalContextV {
        EvalContextV { var_name: self.var_name@, outcome: outcome_view(self.outcome) }
    }
}

/// What a source needs to be evaluated.
pub open spec fn class_of(s: SourceV) -> EvalClass {
    match s {
        SourceV::Literal(_) => EvalClass::Static,
        SourceV::IntRange(_, _, _) => EvalClass::Static,
        SourceV::ContinuousInterval(_, _) => EvalClass::Distribution,
        SourceV::Distribution(_, _, _) => EvalClass::Distribution,
        SourceV::Generator(_, _) => EvalClass::ContextRequired,
        SourceV::WorkloadParamList(_, _) => EvalClass::ContextRequired,
    }
}

/// The text that a source is evaluated from, where it is.
pub open spec fn source_text(s: SourceV) -> Option<Seq<char>> {
    match s {
        SourceV::Generator(expr, _) => Some(expr),
        SourceV::WorkloadParamList(name, _) => Some("{"@ + name + "}"@),
        _ => None,
    }
}

/// The text that `source` is evaluated from, where it is.
pub fn source_display_text(source: &Source) -> (r: Option<String>)
    ensures
        match (r, source_text(source@)) {
            (Some(t), Some(want)) => t@ == want,
            (None, None) => true,
            _ => false,
        },
{
    match source {
        Source::Generator { expr, .. } => Some(expr.clone()),
        Source::WorkloadParamList { name, .. } => {
            let mut out: String = "{".to_owned();
            out.append(name.as_str());
            out.append("}");
            Some(out)
        },
        _ => None,
    }
}

/// The value of a literal. An integer is carried unsigned, by its bits.
pub open spec fn literal_value(l: LiteralV) -> DatumV {
    match l {
        LiteralV::Int(n) => DatumV::U64(n as u64),
        LiteralV::Float(x) => DatumV::F64(x),
        LiteralV::Text(s) => DatumV::Str(s),
        LiteralV::Bool(b) => DatumV::Bool(b),
    }
}

/// The values of a source that needs no context.
pub open spec fn own_values(s: SourceV) -> Seq<DatumV> {
    match s {
        SourceV::Literal(values) => values.map_values(|l: LiteralV| literal_value(l)),
        SourceV::IntRange(lo, hi, step) => source::range_values(lo, hi, step).map_values(
            |n: i64| DatumV::U64(n as u64),
        ),
        _ => Seq::empty(),
    }
}

/// What evaluating a source in a context gives: the values and how they are
/// addressed, or an error.
pub open spec fn evaluated(s: SourceV, ctx: Option<EvalContextV>) -> Result<
    (Seq<DatumV>, IndexFnV),
    EvalErrorV,
> {
    match s {
        SourceV::Literal(_) | SourceV::IntRange(_, _, _) => Ok(
            (own_values(s), IndexFnV::Lattice(seq![own_values(s).len() as u64])),
        ),
        SourceV::ContinuousInterval(interval, measure) => Ok(
            (Seq::empty(), IndexFnV::Continuous(seq![interval], measure)),
        ),
        SourceV::Distribution(_, support, _) => Ok(
            (Seq::empty(), IndexFnV::Continuous(seq![support], MeasureV::Uniform)),
        ),
        _ => match ctx {
            None => Err(EvalErrorV::NeedsContext),
            Some(c) => match c.outcome {
                OutcomeV::Values(values) => Ok(
                    (values, IndexFnV::Lattice(seq![values.len() as u64])),
                ),
                OutcomeV::Failed(message) => Err(
                    EvalErrorV::EvalFailed(c.var_name, source_text(s)->0, message),
                ),
            },
        },
    }
}

/// Whether a source's own values can be listed: a range steps within 64
/// bits.
pub open spec fn listable(s: SourceV) -> bool {
    s matches SourceV::IntRange(lo, hi, step) ==> source::range_fits(lo, hi, step)
}

/// The same values.
pub fn copy_values(values: &Vec<Datum>) -> (r: Vec<Datum>)
    ensures
        value::views(r@) == value::views(values@),
{
    let mut out: Vec<Datum> = Vec::new();
    let mut i: usize = 0;
    while i < values.len()
        invariant
            i <= values@.len(),
            out@.len() == i,
            forall|k: int| 0 <= k < i ==> (#[trigger] out@[k])@ == values@[k]@,
        decreases values.len() - i,
    {
        out.push(values[i].copy());
        i = i + 1;
    }
    assert(value::views(out@) =~= value::views(values@));
    out
}

fn literal_to_value(lv: &LiteralValue) -> (r: Datum)
    ensures
        r@ == literal_value(lv@),
{
    match lv {
        LiteralValue::Int(n) => Datum::U64(*n as u64),
        LiteralValue::Float(x) => Datum::F64(*x),
        LiteralValue::String(s) => Datum::Str(s.clone()),
        LiteralValue::Bool(b) => Datum::Bool(*b),
    }
}

/// The values of a range, carried unsigned.
fn range_as_values(lo: i64, hi: i64, step: i64) -> (r: Vec<Datum>)
    requires
        source::range_fits(lo, hi, step),
    ensures
        value::views(r@) == source::range_values(lo, hi, step).map_values(
            |n: i64| DatumV::U64(n as u64),
        ),
{
    let by: i64 = if step < 1 {
        1
    } else {
        step
    };
    let ghost n = source::range_len(lo, hi, step) as int;
    let mut out: Vec<Datum> = Vec::new();
    let mut cur: i64 = lo;
    proof {
        source::law_range_values(lo, hi, step);
        assert(0 * (by as int) == 0);
    }
    while cur < hi
        invariant
            by == source::effective_step(step),
            by >= 1,
            n == source::range_len(lo, hi, step),
            source::range_fits(lo, hi, step),
            out@.len() <= n,
            cur == lo + out@.len() * by,
            lo + n * by >= hi,
            forall|i: int|
                0 <= i < n ==> #[trigger] source::range_values(lo, hi, step)[i] == lo + i * by
                    && source::range_values(lo, hi, step)[i] < hi,
            forall|k: int|
                0 <= k < out@.len() ==> (#[trigger] out@[k])@ == DatumV::U64(
                    source::range_values(lo, hi, step)[k] as u64,
                ),
        decreases n - out@.len(),
    {
        let ghost k = out@.len() as int;
        proof {
            if k == n {
                assert(false);
            }
            assert(source::range_values(lo, hi, step)[k] == cur);
            assert((k + 1) * by == k * by + by && (k + 1) * by <= n * by) by (nonlinear_arith)
                requires
                    k + 1 <= n,
                    by >= 1,
            ;
        }
        out.push(Datum::U64(cur as u64));
        cur = cur + by;
    }
    proof {
        let k = out@.len() as int;
        if k < n {
            assert(source::range_values(lo, hi, step)[k] < hi);
        }
        assert(value::views(out@) =~= source::range_values(lo, hi, step).map_values(
            |n: i64| DatumV::U64(n as u64),
        ));
    }
    out
}

/// How a list of values is addressed: as one axis of its length.
fn classify_observed_values(n: u64) -> (r: IndexFn)
    ensures
        r@ == IndexFnV::Lattice(seq![n]),
{
    let r = IndexFn::Lattice { axis_sizes: vec![n] };
    assert(r@ =~= IndexFnV::Lattice(seq![n]));
    r
}

/// Evaluation of sources.
pub trait SourceEval {
    /// The source.
    spec fn described(&self) -> SourceV;

    /// What the source needs to be evaluated.
    fn eval_class(&self) -> (r: EvalClass)
        ensures
            r == class_of(self.described()),
    ;

    /// The values of the source. One that needs a context takes what its
    /// text came to from `ctx`.
    fn evaluate(&self, ctx: Option<&EvalContext>) -> (r: Result<EvaluatedSource, EvalError>)
        requires
            listable(self.described()),
        ensures
            match r {
                Ok(e) => evaluated(
                    self.described(),
                    match ctx {
                        Some(c) => Some(c@),
                        None => None,
                    },
                ) == Ok::<(Seq<DatumV>, IndexFnV), EvalErrorV>(
                    (value::views(e.values@), e.index_fn@),
                ) && e.cardinality == e.values@.len(),
                Err(e) => evaluated(
                    self.described(),
                    match ctx {
                        Some(c) => Some(c@),
                        None => None,
                    },
                ) == Err::<(Seq<DatumV>, IndexFnV), EvalErrorV>(e@),
            },
    ;
}

impl SourceEval for Source {
    open spec fn described(&self) -> SourceV {
        self@
    }

    fn eval_class(&self) -> EvalClass {
        match self {
            Source::Literal { .. } | Source::IntRange { .. } => EvalClass::Static,
            Source::ContinuousInterval { .. } | Source::Distribution { .. } => {
                EvalClass::Distribution
            },
            Source::Generator { .. } => EvalClass::ContextRequired,
            Source::WorkloadParamList { .. } => EvalClass::ContextRequired,
        }
    }

    fn evaluate(&self, ctx: Option<&EvalContext>) -> Result<EvaluatedSource, EvalError> {
        match self {
            Source::Literal { values } => {
                let mut vals: Vec<Datum> = Vec::new();
                let mut i: usize = 0;
                while i < values.len()
                    invariant
                        i <= values@.len(),
                        vals@.len() == i,
                        forall|k: int|
                            0 <= k < i ==> (#[trigger] vals@[k])@ == literal_value(values@[k]@),
                    decreases values.len() - i,
                {
                    vals.push(literal_to_value(&values[i]));
                    i = i + 1;
                }
                let n: u64 = vals.len() as u64;
                assert(value::views(vals@) =~= own_values(self@));
                Ok(
                    EvaluatedSource {
                        values: vals,
                        cardinality: n,
                        index_fn: classify_observed_values(n),
                    },
                )
            },
            Source::IntRange { lo, hi, step } => {
                let vals: Vec<Datum> = range_as_values(*lo, *hi, *step);
                let n: u64 = vals.len() as u64;
                assert(value::views(vals@) =~= own_values(self@));
                Ok(
                    EvaluatedSource {
                        values: vals,
                        cardinality: n,
                        index_fn: classify_observed_values(n),
                    },
                )
            },
            Source::Generator { .. } | Source::WorkloadParamList { .. } => {
                match ctx {
                    None => Err(EvalError::NeedsContext),
                    Some(c) => match &c.outcome {
                        Ok(values) => {
                            let vals: Vec<Datum> = copy_values(values);
                            let n: u64 = vals.len() as u64;
                            assert(value::views(vals@).len() == vals@.len());
                            Ok(
                                EvaluatedSource {
                                    values: vals,
                                    cardinality: n,
                                    index_fn: classify_observed_values(n),
                                },
                            )
                        },
                        Err(message) => match source_display_text(self) {
                            Some(text) => Err(
                                EvalError::EvalFailed {
                                    var: c.var_name.clone(),
                                    source: text,
                                    message: message.clone(),
                                },
                            ),
                            None => Err(EvalError::NeedsContext),
                        },
                    },
                }
            },
            Source::ContinuousInterval { interval, measure } => {
                let values: Vec<Datum> = Vec::new();
                let index_fn: IndexFn = IndexFn::Continuous {
                    intervals: vec![*interval],
                    measure: measure.copy(),
                };
                assert(value::views(values@) =~= Seq::<DatumV>::empty());
                assert(index_fn@ =~= IndexFnV::Continuous(
                    seq![*interval],
                    cardinality::measure_view(*measure),
                ));
                Ok(EvaluatedSource { values, cardinality: 0, index_fn })
            },
            Source::Distribution { support, .. } => {
                let values: Vec<Datum> = Vec::new();
                let index_fn: IndexFn = IndexFn::Continuous {
                    intervals: vec![*support],
                    measure: ProductMeasure::Uniform,
                };
                assert(value::views(values@) =~= Seq::<DatumV>::empty());
                assert(index_fn@ =~= IndexFnV::Continuous(seq![*support], MeasureV::Uniform));
                Ok(EvaluatedSource { values, cardinality: 0, index_fn })
            },
        }
    }
}

// ---------------------------------------------------------------------
// Laws
// ---------------------------------------------------------------------

/// A source that needs no context evaluates the same in every one.
pub proof fn law_static_ignores_context(s: SourceV, a: Option<EvalContextV>, b: Option<EvalContextV>)
    requires
        class_of(s) != EvalClass::ContextRequired,
    ensures
        evaluated(s, a) == evaluated(s, b),
        evaluated(s, a) is Ok,
{
}

/// A static source evaluates to as many values as its cardinality says.
pub proof fn law_static_cardinality(s: SourceV)
    requires
        class_of(s) == EvalClass::Static,
    ensures
        source::source_cardinality(s) == cardinality::CardinalityV::Bounded(
            own_values(s).len() as u64,
        ),
        evaluated(s, None) matches Ok(e) && e.0.len() == own_values(s).len(),
{
}

} // verus!
