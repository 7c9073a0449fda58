//! Evaluation of a comprehension at run time, where a clause may depend on
//! the clauses before it.
//!
//! What only the surroundings can tell (the values that a source's text
//! stands for, what a condition comes to for a tuple, whether an empty
//! clause is accepted, how a value is displayed) is asked for, one question
//! at a time, in a fixed order. The evaluator goes by the replies given so
//! far; where one is missing it stops with the question. With the reply
//! added it runs again and gets further.
use crate::chars;
use crate::comprehension::ast;
use crate::comprehension::ast::{CompV, Comprehension};
use crate::comprehension::eval_source;
use crate::comprehension::eval_source::{
    EvalContext, EvalContextV, EvalError, EvalErrorV, EvaluatedSource, OutcomeV, SourceEval,
};
use crate::comprehension::metadata;
use crate::comprehension::metadata::{IndexFn, IndexFnV};
use crate::comprehension::source;
use crate::comprehension::source::{Source, SourceV};
use crate::comprehension::strategies::dispatch;
use crate::comprehension::strategies::dispatch::Chosen;
use crate::comprehension::strategies::{EvaluatedInput, Strategy};
use crate::comprehension::strategy::{StrategyName, ZipMode};
use crate::comprehension::surfaces::polydat_kernel;
use crate::comprehension::tuple;
use crate::comprehension::tuple::{Tuple, TupleV, TupleValue, TupleValueV};
use crate::float::Side;
use crate::value;
use crate::value::{Datum, DatumV};
use vstd::prelude::*;

verus! {

/// Named values, in order.
pub type RuntimeTuple = Vec<(String, Datum)>;

/// The content of a runtime tuple.
pub type BindingsV = Seq<(Seq<char>, DatumV)>;

/// The contents of a run of runtime tuples.
pub open spec fn runtime_views(s: Seq<RuntimeTuple>) -> Seq<BindingsV> {
    Seq::new(s.len(), |i: int| polydat_kernel::binding_views(s[i]@))
}

/// A clause that has no values.
#[derive(Debug, PartialEq)]
pub struct EmptyClause {
    pub var: String,
    pub spec_expr: Option<String>,
}

/// A question to the surroundings.
#[derive(Debug, PartialEq)]
pub enum Question {
    /// What values does this text stand for, under these bindings?
    Source { var: String, text: String, prefix: RuntimeTuple },
    /// What does this condition come to, under these bindings?
    Filter { predicate: String, tuple: RuntimeTuple },
    /// Is this clause without values accepted?
    Empty(EmptyClause),
    /// How is this value displayed?
    Display(Datum),
}

/// What a condition came to.
#[derive(Debug, PartialEq)]
pub enum FilterReply {
    /// A value, and how it is shown.
    Verdict { value: Datum, shown: String },
    /// It does not evaluate.
    Failed(String),
}

/// The replies given so far, each kind in the order of its questions.
#[derive(Debug)]
pub struct Replies {
    pub sources: Vec<Result<Vec<Datum>, String>>,
    pub filters: Vec<FilterReply>,
    pub empties: Vec<Result<(), String>>,
    pub displays: Vec<String>,
}

/// Why an evaluation fails.
#[derive(Debug, PartialEq)]
pub enum RuntimeError {
    /// A source does not evaluate.
    SourceEval { var: String, source: String, message: String },
    /// A condition does not evaluate, or to nothing that says yes or no.
    FilterEval { predicate: String, message: String },
    /// An order gave a tuple that it was not given.
    OrderEval { strategy: StrategyName, message: String },
    /// A strategy does not take an input addressed this way.
    StrategyRejectsInput { strategy: StrategyName, index_fn: Option<IndexFn> },
    /// Children cannot be combined.
    UnsupportedShape(String),
    /// A clause without values was not accepted.
    EmptyPolicy(String),
}

/// Why an evaluation stops.
#[derive(Debug, PartialEq)]
pub enum Stop {
    /// A reply is missing.
    Ask(Question),
    /// The index space of an order does not fit in 64 bits.
    Beyond(StrategyName),
    /// The evaluation fails.
    Failed(RuntimeError),
}

// ---------------------------------------------------------------------
// Contents
// ---------------------------------------------------------------------

/// The content of a question.
#[verifier::ext_equal]
pub enum QuestionV {
    Source(Seq<char>, Seq<char>, BindingsV),
    Filter(Seq<char>, BindingsV),
    Empty(Seq<char>, Option<Seq<char>>),
    Display(DatumV),
}

/// The content of an error.
#[verifier::ext_equal]
pub enum RuntimeErrorV {
    SourceEval(Seq<char>, Seq<char>, Seq<char>),
    FilterEval(Seq<char>, Seq<char>),
    OrderEval(StrategyName, Seq<char>),
    StrategyRejectsInput(StrategyName, Option<IndexFnV>),
    UnsupportedShape(Seq<char>),
    EmptyPolicy(Seq<char>),
}

/// The content of a stop.
#[verifier::ext_equal]
pub enum StopV {
    Ask(QuestionV),
    Beyond(StrategyName),
    Failed(RuntimeErrorV),
}

/// The content of the reply to a condition.
#[verifier::ext_equal]
pub enum FilterReplyV {
    Verdict(DatumV, Seq<char>),
    Failed(Seq<char>),
}

/// The content of the replies.
#[verifier::ext_equal]
pub struct RepliesV {
    pub sources: Seq<OutcomeV>,
    pub filters: Seq<FilterReplyV>,
    pub empties: Seq<Option<Seq<char>>>,
    pub displays: Seq<Seq<char>>,
}

impl View for Question {
    type V = QuestionV;

    open spec fn view(&self) -> QuestionV {
        match *self {
            Question::Source { var, text, prefix } => QuestionV::Source(
                var@,
                text@,
                polydat_kernel::binding_views(prefix@),
            ),
            Question::Filter { predicate, tuple } => QuestionV::Filter(
                predicate@,
                polydat_kernel::binding_views(tuple@),
            ),
            Question::Empty(e) => QuestionV::Empty(
                e.var@,
                match e.spec_expr {
                    Some(t) => Some(t@),
                    None => None,
                },
            ),
            Question::Display(v) => QuestionV::Display(v@),
        }
    }
}

impl View for RuntimeError {
    type V = RuntimeErrorV;

    open spec fn view(&self) -> RuntimeErrorV {
        match *self {
            RuntimeError::SourceEval { var, source, message } => RuntimeErrorV::SourceEval(
                var@,
                source@,
                message@,
            ),
            RuntimeError::FilterEval { predicate, message } => RuntimeErrorV::FilterEval(
                predicate@,
                message@,
            ),
            RuntimeError::OrderEval { strategy, message } => RuntimeErrorV::OrderEval(
                strategy,
                message@,
            ),
            RuntimeError::StrategyRejectsInput { strategy, index_fn } =>
                RuntimeErrorV::StrategyRejectsInput(strategy, metadata::index_view(index_fn)),
            RuntimeError::UnsupportedShape(m) => RuntimeErrorV::UnsupportedShape(m@),
            RuntimeError::EmptyPolicy(m) => RuntimeErrorV::EmptyPolicy(m@),
        }
    }
}

impl View for Stop {
    type V = StopV;

    open spec fn view(&self) -> StopV {
        match *self {
            Stop::Ask(q) => StopV::Ask(q@),
            Stop::Beyond(s) => StopV::Beyond(s),
            Stop::Failed(e) => StopV::Failed(e@),
        }
    }
}

impl View for FilterReply {
    type V = FilterReplyV;

    open spec fn view(&self) -> FilterReplyV {
        match *self {
            FilterReply::Verdict { value, shown } => FilterReplyV::Verdict(value@, shown@),
            FilterReply::Failed(m) => FilterReplyV::Failed(m@),
        }
    }
}

/// What is said of a clause without values: nothing, or why it is refused.
pub open spec fn refusal(r: Result<(), String>) -> Option<Seq<char>> {
    match r {
        Ok(_) => None,
        Err(m) => Some(m@),
    }
}

impl View for Replies {
    type V = RepliesV;

    open spec fn view(&self) -> RepliesV {
        RepliesV {
            sources: Seq::new(
                self.sources@.len(),
                |i: int| eval_source::outcome_view(self.sources@[i]),
            ),
            filters: Seq::new(self.filters@.len(), |i: int| self.filters@[i]@),
            empties: Seq::new(self.empties@.len(), |i: int| refusal(self.empties@[i])),
            displays: chars::texts(self.displays@),
        }
    }
}

/// The text of an error. `shape` is how the addressing that a strategy
/// rejects is shown.
pub open spec fn runtime_error_text(e: RuntimeErrorV, shape: Seq<char>) -> Seq<char> {
    match e {
        RuntimeErrorV::SourceEval(var, source, message) => "for_each clause '"@ + var + " in "@
            + source + "': "@ + message,
        RuntimeErrorV::FilterEval(predicate, message) => "comprehension filter '"@ + predicate
            + "': "@ + message,
        RuntimeErrorV::OrderEval(strategy, message) => "order strategy "@ + strategy_label(
            strategy,
        ) + ": "@ + message,
        RuntimeErrorV::StrategyRejectsInput(strategy, _) => "order strategy "@ + strategy_label(
            strategy,
        ) + " rejects input shape "@ + shape
            + " (V4: per-strategy IndexFn contract; see spec §3.6's strategy table)"@,
        RuntimeErrorV::UnsupportedShape(m) => m,
        RuntimeErrorV::EmptyPolicy(m) => m,
    }
}

/// A strategy in messages.
pub open spec fn strategy_label(s: StrategyName) -> Seq<char> {
    match s {
        StrategyName::Lex => "Lex"@,
        StrategyName::ReverseLex => "ReverseLex"@,
        StrategyName::Shuffle => "Shuffle"@,
        StrategyName::Halton => "Halton"@,
        StrategyName::Sobol => "Sobol"@,
        StrategyName::Lhs => "Lhs"@,
        StrategyName::Extrema => "Extrema"@,
        StrategyName::Shells => "Shells"@,
        StrategyName::Diagonal => "Diagonal"@,
        StrategyName::Antidiagonal => "Antidiagonal"@,
    }
}

fn label_of(s: StrategyName) -> (r: &'static str)
    ensures
        r@ == strategy_label(s),
{
    match s {
        StrategyName::Lex => "Lex",
        StrategyName::ReverseLex => "ReverseLex",
        StrategyName::Shuffle => "Shuffle",
        StrategyName::Halton => "Halton",
        StrategyName::Sobol => "Sobol",
        StrategyName::Lhs => "Lhs",
        StrategyName::Extrema => "Extrema",
        StrategyName::Shells => "Shells",
        StrategyName::Diagonal => "Diagonal",
        StrategyName::Antidiagonal => "Antidiagonal",
    }
}

impl RuntimeError {
    /// The text of the error. `shape` is how the addressing that a
    /// strategy rejects is shown.
    pub fn to_string(&self, shape: &str) -> (r: String)
        ensures
            r@ == runtime_error_text(self@, shape@),
    {
        match self {
            RuntimeError::SourceEval { var, source, message } => {
                let mut out: String = "for_each clause '".to_owned();
                out.append(var.as_str());
                out.append(" in ");
                out.append(source.as_str());
                out.append("': ");
                out.append(message.as_str());
                out
            },
            RuntimeError::FilterEval { predicate, message } => {
                let mut out: String = "comprehension filter '".to_owned();
                out.append(predicate.as_str());
                out.append("': ");
                out.append(message.as_str());
                out
            },
            RuntimeError::OrderEval { strategy, message } => {
                let mut out: String = "order strategy ".to_owned();
                out.append(label_of(*strategy));
                out.append(": ");
                out.append(message.as_str());
                out
            },
            RuntimeError::StrategyRejectsInput { strategy, .. } => {
                let mut out: String = "order strategy ".to_owned();
                out.append(label_of(*strategy));
                out.append(" rejects input shape ");
                out.append(shape);
                out.append(
                    " (V4: per-strategy IndexFn contract; see spec §3.6's strategy table)",
                );
                out
            },
            RuntimeError::UnsupportedShape(m) => m.clone(),
            RuntimeError::EmptyPolicy(m) => m.clone(),
        }
    }
}

// ---------------------------------------------------------------------
// What an evaluation comes to
// ---------------------------------------------------------------------

/// How many replies of each kind were used.
#[verifier::ext_equal]
pub struct AtV {
    pub sources: nat,
    pub filters: nat,
    pub empties: nat,
    pub displays: nat,
}

/// Tuples and how they are addressed.
#[verifier::ext_equal]
pub struct NodeV {
    pub tuples: Seq<BindingsV>,
    pub index: Option<IndexFnV>,
}

/// What the walk through a product noted: how the children it met were
/// addressed, and whether a child's length changed.
#[verifier::ext_equal]
pub struct NotedV {
    pub fns: Seq<Option<IndexFnV>>,
    pub dependent: bool,
}

/// What a clause comes to, once its source is evaluated.
pub open spec fn clause_node(
    name: Seq<char>,
    s: SourceV,
    ev: Result<(Seq<DatumV>, IndexFnV), EvalErrorV>,
    rep: RepliesV,
    at: AtV,
) -> (Result<NodeV, StopV>, AtV) {
    match ev {
        Err(EvalErrorV::EvalFailed(var, source, message)) => (
            Err(StopV::Failed(RuntimeErrorV::SourceEval(var, source, message))),
            at,
        ),
        Err(EvalErrorV::NeedsContext) => (
            Err(
                StopV::Failed(
                    RuntimeErrorV::UnsupportedShape(
                        "clause '"@ + name
                            + "': source requires kernel context but evaluator provided none — internal bug in runtime walker"@,
                    ),
                ),
            ),
            at,
        ),
        Ok((values, idx)) => if values.len() > 0 {
            (
                Ok(
                    NodeV {
                        tuples: values.map_values(|v: DatumV| seq![(name, v)]),
                        index: Some(idx),
                    },
                ),
                at,
            )
        } else if at.empties < rep.empties.len() {
            let next = AtV { empties: at.empties + 1, ..at };
            match rep.empties[at.empties as int] {
                None => (Ok(NodeV { tuples: Seq::empty(), index: Some(idx) }), next),
                Some(m) => (Err(StopV::Failed(RuntimeErrorV::EmptyPolicy(m))), next),
            }
        } else {
            (Err(StopV::Ask(QuestionV::Empty(name, eval_source::source_text(s)))), at)
        },
    }
}

/// What a clause comes to.
pub open spec fn eval_clause(
    name: Seq<char>,
    s: SourceV,
    prefix: BindingsV,
    rep: RepliesV,
    at: AtV,
) -> (Result<NodeV, StopV>, AtV) {
    match eval_source::source_text(s) {
        None => clause_node(name, s, eval_source::evaluated(s, None), rep, at),
        Some(text) => if at.sources < rep.sources.len() {
            clause_node(
                name,
                s,
                eval_source::evaluated(
                    s,
                    Some(
                        EvalContextV {
                            var_name: name,
                            outcome: rep.sources[at.sources as int],
                        },
                    ),
                ),
                rep,
                AtV { sources: at.sources + 1, ..at },
            )
        } else {
            (Err(StopV::Ask(QuestionV::Source(name, text, prefix))), at)
        },
    }
}

/// The length of a single axis.
pub open spec fn axis_size(idx: IndexFnV) -> Option<u64> {
    match idx {
        IndexFnV::Lattice(sizes) => if sizes.len() == 1 {
            Some(sizes[0])
        } else {
            None
        },
        IndexFnV::Lockstep(n) => Some(n),
        _ => None,
    }
}

/// What is noted of a child of a product that stands at this depth: its
/// addressing the first time, later whether its length is another.
pub open spec fn noted_child(n: NotedV, depth: nat, node: NodeV) -> NotedV {
    if n.fns.len() <= depth {
        NotedV { fns: n.fns.push(node.index), ..n }
    } else {
        match n.fns[depth as int] {
            Some(prev) => if axis_size(prev) != Some(node.tuples.len() as u64) {
                NotedV { dependent: true, ..n }
            } else {
                n
            },
            None => n,
        }
    }
}

/// A tuple in front of each of a run.
pub open spec fn headed(head: BindingsV, tails: Seq<BindingsV>) -> Seq<BindingsV> {
    Seq::new(tails.len(), |i: int| head + tails[i])
}

/// The lengths of a run of children.
pub open spec fn lengths(kids: Seq<NodeV>) -> Seq<u64> {
    Seq::new(kids.len(), |i: int| kids[i].tuples.len() as u64)
}

/// Whether all lengths agree with the first.
pub open spec fn all_alike(s: Seq<u64>) -> bool {
    forall|i: int| 0 <= i < s.len() ==> #[trigger] s[i] == s[0]
}

/// A run of numbers in brackets.
pub open spec fn list_text(s: Seq<u64>) -> Seq<char> {
    "["@ + chars::joined(s.map_values(|n: u64| chars::decimal(n as nat)), ", "@) + "]"@
}

/// The number of rows of children side by side.
pub open spec fn row_count(s: Seq<u64>, mode: ZipMode) -> u64 {
    match mode {
        ZipMode::Strict => s[0],
        ZipMode::Truncate => crate::comprehension::ir::compile::smallest_of(s),
        ZipMode::Cycle => crate::comprehension::strategies::largest_of(s),
    }
}

/// One row of children side by side; a child without tuples is passed
/// over.
pub open spec fn side_row(kids: Seq<NodeV>, i: int, mode: ZipMode) -> BindingsV
    decreases kids.len(),
{
    if kids.len() == 0 {
        Seq::empty()
    } else {
        let own = kids.last().tuples;
        side_row(kids.drop_last(), i, mode) + if own.len() == 0 {
            Seq::empty()
        } else if mode is Cycle {
            own[i % (own.len() as int)]
        } else {
            own[i]
        }
    }
}

/// The children side by side.
pub open spec fn zip_node(kids: Seq<NodeV>, mode: ZipMode) -> Result<NodeV, StopV> {
    let sizes = lengths(kids);
    if mode is Strict && !all_alike(sizes) {
        Err(
            StopV::Failed(
                RuntimeErrorV::UnsupportedShape(
                    "zip strict: child lengths differ ("@ + list_text(sizes) + ")"@,
                ),
            ),
        )
    } else {
        let n = row_count(sizes, mode);
        Ok(
            NodeV {
                tuples: Seq::new(n as nat, |i: int| side_row(kids, i, mode)),
                index: if mode is Cycle {
                    Some(IndexFnV::Modular(sizes))
                } else {
                    Some(IndexFnV::Lockstep(n))
                },
            },
        )
    }
}

/// The tuples of a run of children, one after the other.
pub open spec fn all_tuples(kids: Seq<NodeV>) -> Seq<BindingsV>
    decreases kids.len(),
{
    if kids.len() == 0 {
        Seq::empty()
    } else {
        all_tuples(kids.drop_last()) + kids.last().tuples
    }
}

/// The children one after the other.
pub open spec fn union_node(kids: Seq<NodeV>) -> NodeV {
    NodeV {
        tuples: all_tuples(kids),
        index: if forall|i: int| 0 <= i < kids.len() ==> (#[trigger] kids[i]).index is Some {
            Some(IndexFnV::Concatenation(lengths(kids)))
        } else {
            None
        },
    }
}

/// What a verdict says: yes or no, or that it says neither.
pub open spec fn verdict(p: Seq<char>, r: FilterReplyV) -> Result<bool, StopV> {
    match r {
        FilterReplyV::Failed(m) => Err(StopV::Failed(RuntimeErrorV::FilterEval(p, m))),
        FilterReplyV::Verdict(v, shown) => match v {
            DatumV::Bool(b) => Ok(b),
            DatumV::U64(n) => Ok(n != 0),
            DatumV::F64(x) => Ok(!x.zero()),
            _ => Err(
                StopV::Failed(
                    RuntimeErrorV::FilterEval(p, "expected bool/u64/f64, got "@ + shown),
                ),
            ),
        },
    }
}

/// The tuples of a run for which a condition holds.
pub open spec fn eval_filter(s: Seq<BindingsV>, p: Seq<char>, rep: RepliesV, at: AtV) -> (
    Result<Seq<BindingsV>, StopV>,
    AtV,
)
    decreases s.len(),
{
    if s.len() == 0 {
        (Ok(Seq::empty()), at)
    } else {
        let (front, mid) = eval_filter(s.drop_last(), p, rep, at);
        match front {
            Err(e) => (Err(e), mid),
            Ok(kept) => if mid.filters < rep.filters.len() {
                let next = AtV { filters: mid.filters + 1, ..mid };
                match verdict(p, rep.filters[mid.filters as int]) {
                    Err(e) => (Err(e), next),
                    Ok(keep) => (
                        Ok(
                            if keep {
                                kept.push(s.last())
                            } else {
                                kept
                            },
                        ),
                        next,
                    ),
                }
            } else {
                (Err(StopV::Ask(QuestionV::Filter(p, s.last()))), mid)
            },
        }
    }
}

/// A tuple as an order sees it: a value that is no number, truth value or
/// text stands as it is displayed.
pub open spec fn plain_tuple(b: BindingsV, rep: RepliesV, at: AtV) -> (
    Result<TupleV, StopV>,
    AtV,
)
    decreases b.len(),
{
    if b.len() == 0 {
        (Ok(Seq::empty()), at)
    } else {
        let (front, mid) = plain_tuple(b.drop_last(), rep, at);
        match front {
            Err(e) => (Err(e), mid),
            Ok(t) => match polydat_kernel::tuple_value_of(b.last().1) {
                Some(v) => (Ok(t.push((b.last().0, v))), mid),
                None => if mid.displays < rep.displays.len() {
                    (
                        Ok(
                            t.push(
                                (
                                    b.last().0,
                                    TupleValueV::Str(rep.displays[mid.displays as int]),
                                ),
                            ),
                        ),
                        AtV { displays: mid.displays + 1, ..mid },
                    )
                } else {
                    (Err(StopV::Ask(QuestionV::Display(b.last().1))), mid)
                },
            },
        }
    }
}

/// A run of tuples as an order sees them.
pub open spec fn plain_tuples(s: Seq<BindingsV>, rep: RepliesV, at: AtV) -> (
    Result<Seq<TupleV>, StopV>,
    AtV,
)
    decreases s.len(),
{
    if s.len() == 0 {
        (Ok(Seq::empty()), at)
    } else {
        let (front, mid) = plain_tuples(s.drop_last(), rep, at);
        match front {
            Err(e) => (Err(e), mid),
            Ok(ts) => {
                let (last, next) = plain_tuple(s.last(), rep, mid);
                match last {
                    Err(e) => (Err(e), next),
                    Ok(t) => (Ok(ts.push(t)), next),
                }
            },
        }
    }
}

/// Whether two values are equal; floats by their values, so that
/// not-a-number equals nothing.
pub open spec fn values_equal(a: TupleValueV, b: TupleValueV) -> bool {
    match (a, b) {
        (TupleValueV::U64(x), TupleValueV::U64(y)) => x == y,
        (TupleValueV::I64(x), TupleValueV::I64(y)) => x == y,
        (TupleValueV::F64(x), TupleValueV::F64(y)) => x.compared(y) == Some(Side::Same),
        (TupleValueV::Str(x), TupleValueV::Str(y)) => x == y,
        (TupleValueV::Bool(x), TupleValueV::Bool(y)) => x == y,
        _ => false,
    }
}

/// Whether two tuples are equal.
pub open spec fn tuples_equal(a: TupleV, b: TupleV) -> bool {
    a.len() == b.len() && forall|i: int|
        0 <= i < a.len() ==> (#[trigger] a[i]).0 == b[i].0 && values_equal(a[i].1, b[i].1)
}

/// The first tuple at or after `from` that is not used and equals `t`.
pub open spec fn first_match(s: Seq<TupleV>, used: Seq<bool>, t: TupleV, from: int) -> Option<int>
    decreases s.len() - from,
{
    if from < 0 || from >= s.len() {
        None
    } else if !used[from] && tuples_equal(s[from], t) {
        Some(from)
    } else {
        first_match(s, used, t, from + 1)
    }
}

/// The places of the ordered tuples among the input, each used once, and
/// what is used then; none where one is not found.
pub open spec fn places(ordered: Seq<TupleV>, s: Seq<TupleV>) -> Option<(Seq<int>, Seq<bool>)>
    decreases ordered.len(),
{
    if ordered.len() == 0 {
        Some((Seq::empty(), Seq::new(s.len(), |i: int| false)))
    } else {
        match places(ordered.drop_last(), s) {
            None => None,
            Some((front, used)) => match first_match(s, used, ordered.last(), 0) {
                None => None,
                Some(i) => Some((front.push(i), used.update(i, true))),
            },
        }
    }
}

/// What is said where an order gave a tuple that it was not given.
pub open spec fn lost_text() -> Seq<char> {
    "ordered tuple lost reference to runtime source — Strategy::apply must return tuples drawn from EvaluatedInput.tuples (per spec §10.7.8)"@
}

/// The tuples of a child in a strategy's order.
pub open spec fn eval_order(
    node: NodeV,
    strategy: StrategyName,
    truncation: Option<u64>,
    rep: RepliesV,
    at: AtV,
) -> (Result<NodeV, StopV>, AtV)
    recommends
        dispatch::chosen(strategy) is Some,
{
    let c = dispatch::chosen(strategy)->0;
    if !c.accepts(node.index) {
        (Err(StopV::Failed(RuntimeErrorV::StrategyRejectsInput(strategy, node.index))), at)
    } else {
        let (plain, next) = plain_tuples(node.tuples, rep, at);
        match plain {
            Err(e) => (Err(e), next),
            Ok(ts) => {
                let idx = match node.index {
                    Some(i) => i,
                    None => IndexFnV::Lattice(seq![ts.len() as u64]),
                };
                if !c.within_limits(idx) {
                    (Err(StopV::Beyond(strategy)), next)
                } else {
                    match places(c.ordered(ts, idx, truncation), ts) {
                        None => (
                            Err(StopV::Failed(RuntimeErrorV::OrderEval(strategy, lost_text()))),
                            next,
                        ),
                        Some((found, _)) => (
                            Ok(
                                NodeV {
                                    tuples: found.map_values(|i: int| node.tuples[i]),
                                    index: None,
                                },
                            ),
                            next,
                        ),
                    }
                }
            },
        }
    }
}

/// What a comprehension comes to under the bindings before it.
pub open spec fn eval(c: CompV, prefix: BindingsV, rep: RepliesV, at: AtV) -> (
    Result<NodeV, StopV>,
    AtV,
)
    decreases c, 0nat, 0nat,
{
    match c {
        CompV::Clause(name, s) => eval_clause(name, s, prefix, rep, at),
        CompV::Cartesian(children) => if children.len() == 0 {
            (
                Ok(
                    NodeV {
                        tuples: seq![Seq::empty()],
                        index: Some(IndexFnV::Lattice(seq![1u64])),
                    },
                ),
                at,
            )
        } else {
            let (r, noted, next) = eval_product(
                children,
                prefix,
                NotedV { fns: Seq::empty(), dependent: false },
                rep,
                at,
            );
            match r {
                Err(e) => (Err(e), next),
                Ok(tuples) => (
                    Ok(
                        NodeV {
                            tuples,
                            index: if noted.dependent {
                                None
                            } else {
                                metadata::product_index(noted.fns)
                            },
                        },
                    ),
                    next,
                ),
            }
        },
        CompV::Zip(children, mode) => if children.len() == 0 {
            (
                Ok(NodeV { tuples: seq![Seq::empty()], index: Some(IndexFnV::Lockstep(1)) }),
                at,
            )
        } else {
            let (r, next) = eval_each(children, prefix, rep, at);
            match r {
                Err(e) => (Err(e), next),
                Ok(kids) => (zip_node(kids, mode), next),
            }
        },
        CompV::Union(children) => {
            let (r, next) = eval_each(children, prefix, rep, at);
            match r {
                Err(e) => (Err(e), next),
                Ok(kids) => (Ok(union_node(kids)), next),
            }
        },
        CompV::Filter(child, p) => {
            let (r, next) = eval(*child, prefix, rep, at);
            match r {
                Err(e) => (Err(e), next),
                Ok(node) => {
                    let (kept, last) = eval_filter(node.tuples, p, rep, next);
                    match kept {
                        Err(e) => (Err(e), last),
                        Ok(tuples) => (Ok(NodeV { tuples, index: None }), last),
                    }
                },
            }
        },
        CompV::Order(child, strategy, truncation) => {
            let (r, next) = eval(*child, prefix, rep, at);
            match r {
                Err(e) => (Err(e), next),
                Ok(node) => eval_order(node, strategy, truncation, rep, next),
            }
        },
    }
}

/// What each of a run of comprehensions comes to under the same bindings.
pub open spec fn eval_each(s: Seq<CompV>, prefix: BindingsV, rep: RepliesV, at: AtV) -> (
    Result<Seq<NodeV>, StopV>,
    AtV,
)
    decreases s, 1nat, s.len(),
{
    if s.len() == 0 {
        (Ok(Seq::empty()), at)
    } else {
        let (front, mid) = eval_each(s.drop_last(), prefix, rep, at);
        match front {
            Err(e) => (Err(e), mid),
            Ok(nodes) => {
                let (last, next) = eval(s.last(), prefix, rep, mid);
                match last {
                    Err(e) => (Err(e), next),
                    Ok(n) => (Ok(nodes.push(n)), next),
                }
            },
        }
    }
}

/// The tuples of a product: for each tuple of the first child those of the
/// others, evaluated under it.
pub open spec fn eval_product(
    s: Seq<CompV>,
    prefix: BindingsV,
    noted: NotedV,
    rep: RepliesV,
    at: AtV,
) -> (Result<Seq<BindingsV>, StopV>, NotedV, AtV)
    decreases s, 1nat, 0nat,
{
    if s.len() == 0 {
        (Ok(seq![Seq::empty()]), noted, at)
    } else {
        let (head, mid) = eval(s[0], prefix, rep, at);
        match head {
            Err(e) => (Err(e), noted, mid),
            Ok(node) => {
                let next = noted_child(noted, prefix.len(), node);
                if s.len() == 1 {
                    (Ok(node.tuples), next, mid)
                } else {
                    eval_tails(node.tuples, s.drop_first(), prefix, next, rep, mid)
                }
            },
        }
    }
}

/// For each head the tuples of the other children under it, in front of
/// which it stands.
pub open spec fn eval_tails(
    heads: Seq<BindingsV>,
    s: Seq<CompV>,
    prefix: BindingsV,
    noted: NotedV,
    rep: RepliesV,
    at: AtV,
) -> (Result<Seq<BindingsV>, StopV>, NotedV, AtV)
    decreases s, 2nat, heads.len(),
{
    if heads.len() == 0 {
        (Ok(Seq::empty()), noted, at)
    } else {
        let (front, n, mid) = eval_tails(heads.drop_last(), s, prefix, noted, rep, at);
        match front {
            Err(e) => (Err(e), n, mid),
            Ok(before) => {
                let (tails, n2, next) = eval_product(s, prefix + heads.last(), n, rep, mid);
                match tails {
                    Err(e) => (Err(e), n2, next),
                    Ok(ts) => (Ok(before + headed(heads.last(), ts)), n2, next),
                }
            },
        }
    }
}

/// Whether every range of a comprehension stays within 64 bits and every
/// order's strategy is one that this crate has.
pub open spec fn supported(c: CompV) -> bool
    decreases c, 0nat,
{
    match c {
        CompV::Clause(_, s) => eval_source::listable(s),
        CompV::Cartesian(children) => all_supported(children),
        CompV::Zip(children, _) => all_supported(children),
        CompV::Union(children) => all_supported(children),
        CompV::Filter(child, _) => supported(*child),
        CompV::Order(child, strategy, _) => supported(*child) && dispatch::chosen(
            strategy,
        ) is Some,
    }
}

/// Whether that holds of each of a run of comprehensions.
pub open spec fn all_supported(s: Seq<CompV>) -> bool
    decreases s, s.len(),
{
    s.len() > 0 ==> all_supported(s.drop_last()) && supported(s.last())
}

/// What a comprehension comes to.
pub open spec fn outcome(c: CompV, rep: RepliesV) -> Result<Seq<BindingsV>, StopV> {
    match eval(
        c,
        Seq::empty(),
        rep,
        AtV { sources: 0, filters: 0, empties: 0, displays: 0 },
    ).0 {
        Ok(node) => Ok(node.tuples),
        Err(e) => Err(e),
    }
}

// ---------------------------------------------------------------------
// The evaluator
// ---------------------------------------------------------------------

/// How many replies of each kind were used.
struct At {
    sources: usize,
    filters: usize,
    empties: usize,
    displays: usize,
}

impl At {
    spec fn view(&self) -> AtV {
        AtV {
            sources: self.sources as nat,
            filters: self.filters as nat,
            empties: self.empties as nat,
            displays: self.displays as nat,
        }
    }
}

/// Tuples and how they are addressed.
struct EvaluatedNode {
    tuples: Vec<RuntimeTuple>,
    index_fn: Option<IndexFn>,
}

impl EvaluatedNode {
    spec fn view(&self) -> NodeV {
        NodeV {
            tuples: runtime_views(self.tuples@),
            index: metadata::index_view(self.index_fn),
        }
    }
}

spec fn node_views(s: Seq<EvaluatedNode>) -> Seq<NodeV> {
    Seq::new(s.len(), |i: int| s[i].view())
}

spec fn node_result(r: Result<EvaluatedNode, Stop>) -> Result<NodeV, StopV> {
    match r {
        Ok(n) => Ok(n.view()),
        Err(e) => Err(e@),
    }
}

spec fn tuples_result(r: Result<Vec<RuntimeTuple>, Stop>) -> Result<Seq<BindingsV>, StopV> {
    match r {
        Ok(v) => Ok(runtime_views(v@)),
        Err(e) => Err(e@),
    }
}

/// What the walk through a product noted.
struct Noted {
    fns: Vec<Option<IndexFn>>,
    dependent: bool,
}

impl Noted {
    spec fn view(&self) -> NotedV {
        NotedV { fns: metadata::index_views(self.fns@), dependent: self.dependent }
    }
}

/// A number that grows with a comprehension.
spec fn weight(c: CompV) -> nat
    decreases c, 0nat,
{
    match c {
        CompV::Clause(_, _) => 1,
        CompV::Cartesian(children) => 1 + weights(children),
        CompV::Zip(children, _) => 1 + weights(children),
        CompV::Union(children) => 1 + weights(children),
        CompV::Filter(child, _) => 1 + weight(*child),
        CompV::Order(child, _, _) => 1 + weight(*child),
    }
}

spec fn weights(s: Seq<CompV>) -> nat
    decreases s, s.len(),
{
    if s.len() == 0 {
        0
    } else {
        1 + weight(s[0]) + weights(s.drop_first())
    }
}

proof fn lemma_weights(s: Seq<CompV>, k: int)
    requires
        0 <= k < s.len(),
    ensures
        weight(s[k]) < weights(s),
        weights(s.skip(k)) == 1 + weight(s[k]) + weights(s.skip(k + 1)),
        weights(s.skip(k)) <= weights(s),
    decreases s.len(),
{
    if k == 0 {
        assert(s.skip(0) =~= s);
        assert(s.skip(1) =~= s.drop_first());
    } else {
        lemma_weights(s.drop_first(), k - 1);
        assert(s.drop_first().skip(k - 1) =~= s.skip(k));
        assert(s.drop_first().skip(k) =~= s.skip(k + 1));
    }
}

proof fn lemma_all_supported(s: Seq<CompV>, k: int)
    requires
        all_supported(s),
        0 <= k < s.len(),
    ensures
        supported(s[k]),
    decreases s.len(),
{
    if k < s.len() - 1 {
        lemma_all_supported(s.drop_last(), k);
    }
}

proof fn lemma_each_prefix(s: Seq<CompV>, prefix: BindingsV, rep: RepliesV, at: AtV, k: int)
    requires
        0 <= k <= s.len(),
        eval_each(s.take(k), prefix, rep, at).0 is Err,
    ensures
        eval_each(s, prefix, rep, at) == eval_each(s.take(k), prefix, rep, at),
    decreases s.len(),
{
    if k == s.len() {
        assert(s.take(k) =~= s);
    } else {
        assert(s.drop_last().take(k) =~= s.take(k));
        lemma_each_prefix(s.drop_last(), prefix, rep, at, k);
    }
}

proof fn lemma_tails_prefix(
    heads: Seq<BindingsV>,
    s: Seq<CompV>,
    prefix: BindingsV,
    noted: NotedV,
    rep: RepliesV,
    at: AtV,
    k: int,
)
    requires
        0 <= k <= heads.len(),
        eval_tails(heads.take(k), s, prefix, noted, rep, at).0 is Err,
    ensures
        eval_tails(heads, s, prefix, noted, rep, at) == eval_tails(
            heads.take(k),
            s,
            prefix,
            noted,
            rep,
            at,
        ),
    decreases heads.len(),
{
    if k == heads.len() {
        assert(heads.take(k) =~= heads);
    } else {
        assert(heads.drop_last().take(k) =~= heads.take(k));
        lemma_tails_prefix(heads.drop_last(), s, prefix, noted, rep, at, k);
    }
}

proof fn lemma_filter_prefix(s: Seq<BindingsV>, p: Seq<char>, rep: RepliesV, at: AtV, k: int)
    requires
        0 <= k <= s.len(),
        eval_filter(s.take(k), p, rep, at).0 is Err,
    ensures
        eval_filter(s, p, rep, at) == eval_filter(s.take(k), p, rep, at),
    decreases s.len(),
{
    if k == s.len() {
        assert(s.take(k) =~= s);
    } else {
        assert(s.drop_last().take(k) =~= s.take(k));
        lemma_filter_prefix(s.drop_last(), p, rep, at, k);
    }
}

proof fn lemma_plain_prefix(b: BindingsV, rep: RepliesV, at: AtV, k: int)
    requires
        0 <= k <= b.len(),
        plain_tuple(b.take(k), rep, at).0 is Err,
    ensures
        plain_tuple(b, rep, at) == plain_tuple(b.take(k), rep, at),
    decreases b.len(),
{
    if k == b.len() {
        assert(b.take(k) =~= b);
    } else {
        assert(b.drop_last().take(k) =~= b.take(k));
        lemma_plain_prefix(b.drop_last(), rep, at, k);
    }
}

proof fn lemma_plains_prefix(s: Seq<BindingsV>, rep: RepliesV, at: AtV, k: int)
    requires
        0 <= k <= s.len(),
        plain_tuples(s.take(k), rep, at).0 is Err,
    ensures
        plain_tuples(s, rep, at) == plain_tuples(s.take(k), rep, at),
    decreases s.len(),
{
    if k == s.len() {
        assert(s.take(k) =~= s);
    } else {
        assert(s.drop_last().take(k) =~= s.take(k));
        lemma_plains_prefix(s.drop_last(), rep, at, k);
    }
}

/// Add the bindings of `more` at the end.
fn add_bindings(out: &mut RuntimeTuple, more: &RuntimeTuple)
    ensures
        polydat_kernel::binding_views(final(out)@) == polydat_kernel::binding_views(old(out)@)
            + polydat_kernel::binding_views(more@),
{
    let ghost all = polydat_kernel::binding_views(more@);
    let ghost start = polydat_kernel::binding_views(out@);
    let mut i: usize = 0;
    assert(start + all.take(0) =~= start);
    while i < more.len()
        invariant
            i <= more@.len(),
            all == polydat_kernel::binding_views(more@),
            polydat_kernel::binding_views(out@) == start + all.take(i as int),
        decreases more.len() - i,
    {
        let ghost before = out@;
        let name: String = more[i].0.clone();
        let v: Datum = more[i].1.copy();
        out.push((name, v));
        i = i + 1;
        proof {
            assert(polydat_kernel::binding_views(out@) =~= polydat_kernel::binding_views(
                before,
            ).push(all[i - 1]));
            assert(start + all.take(i as int) =~= (start + all.take(i - 1)).push(all[i - 1]));
        }
    }
    assert(all.take(i as int) =~= all);
}

/// The same bindings.
fn copy_bindings(b: &RuntimeTuple) -> (r: RuntimeTuple)
    ensures
        polydat_kernel::binding_views(r@) == polydat_kernel::binding_views(b@),
{
    let mut out: RuntimeTuple = Vec::new();
    add_bindings(&mut out, b);
    assert(polydat_kernel::binding_views(out@) =~= polydat_kernel::binding_views(b@));
    out
}

/// Add one tuple to a run.
fn push_tuple(out: &mut Vec<RuntimeTuple>, t: RuntimeTuple)
    ensures
        runtime_views(final(out)@) == runtime_views(old(out)@).push(
            polydat_kernel::binding_views(t@),
        ),
{
    out.push(t);
    assert(runtime_views(out@) =~= runtime_views(old(out)@).push(
        polydat_kernel::binding_views(t@),
    ));
}

/// The tuples of a clause's values.
fn clause_values(name: &String, values: Vec<Datum>) -> (r: Vec<RuntimeTuple>)
    ensures
        runtime_views(r@) == value::views(values@).map_values(|v: DatumV| seq![(name@, v)]),
{
    let ghost all = value::views(values@);
    let mut out: Vec<RuntimeTuple> = Vec::new();
    let mut i: usize = 0;
    assert(runtime_views(out@) =~= Seq::<BindingsV>::empty());
    while i < values.len()
        invariant
            i <= values@.len(),
            all == value::views(values@),
            runtime_views(out@).len() == i,
            forall|k: int|
                0 <= k < i ==> #[trigger] runtime_views(out@)[k] == seq![(name@, all[k])],
        decreases values.len() - i,
    {
        let ghost before = runtime_views(out@);
        let one: RuntimeTuple = vec![(name.clone(), values[i].copy())];
        assert(polydat_kernel::binding_views(one@) =~= seq![(name@, all[i as int])]);
        push_tuple(&mut out, one);
        i = i + 1;
    }
    assert(runtime_views(out@) =~= all.map_values(|v: DatumV| seq![(name@, v)]));
    out
}

/// What a clause comes to, once its source is evaluated.
fn finish_clause(
    name: &String,
    source: &Source,
    ev: Result<EvaluatedSource, EvalError>,
    rep: &Replies,
    at: &mut At,
) -> (r: Result<EvaluatedNode, Stop>)
    requires
        ev matches Ok(e) ==> e.cardinality == e.values@.len(),
    ensures
        clause_node(
            name@,
            source@,
            match ev {
                Ok(e) => Ok((value::views(e.values@), e.index_fn@)),
                Err(e) => Err(e@),
            },
            rep@,
            old(at).view(),
        ) == (node_result(r), final(at).view()),
{
    match ev {
        Err(EvalError::EvalFailed { var, source, message }) => Err(
            Stop::Failed(RuntimeError::SourceEval { var, source, message }),
        ),
        Err(EvalError::NeedsContext) => {
            let mut out: String = "clause '".to_owned();
            out.append(name.as_str());
            out.append(
                "': source requires kernel context but evaluator provided none — internal bug in runtime walker",
            );
            Err(Stop::Failed(RuntimeError::UnsupportedShape(out)))
        },
        Ok(e) => {
            assert(value::views(e.values@).len() == e.values@.len());
            if e.values.len() > 0 {
                let tuples: Vec<RuntimeTuple> = clause_values(name, e.values);
                Ok(EvaluatedNode { tuples, index_fn: Some(e.index_fn) })
            } else if at.empties < rep.empties.len() {
                let k: usize = at.empties;
                at.empties = k + 1;
                assert(rep@.empties[k as int] == refusal(rep.empties@[k as int]));
                match &rep.empties[k] {
                    Ok(_) => {
                        let tuples: Vec<RuntimeTuple> = Vec::new();
                        assert(runtime_views(tuples@) =~= Seq::<BindingsV>::empty());
                        Ok(EvaluatedNode { tuples, index_fn: Some(e.index_fn) })
                    },
                    Err(m) => Err(Stop::Failed(RuntimeError::EmptyPolicy(m.clone()))),
                }
            } else {
                Err(
                    Stop::Ask(
                        Question::Empty(
                            EmptyClause {
                                var: name.clone(),
                                spec_expr: eval_source::source_display_text(source),
                            },
                        ),
                    ),
                )
            }
        },
    }
}

/// What a clause comes to.
fn evaluate_clause(
    name: &String,
    source: &Source,
    prefix: &RuntimeTuple,
    rep: &Replies,
    at: &mut At,
) -> (r: Result<EvaluatedNode, Stop>)
    requires
        eval_source::listable(source@),
    ensures
        eval_clause(
            name@,
            source@,
            polydat_kernel::binding_views(prefix@),
            rep@,
            old(at).view(),
        ) == (node_result(r), final(at).view()),
{
    match eval_source::source_display_text(source) {
        None => {
            let ev: Result<EvaluatedSource, EvalError> = source.evaluate(None);
            finish_clause(name, source, ev, rep, at)
        },
        Some(text) => {
            if at.sources < rep.sources.len() {
                let k: usize = at.sources;
                at.sources = k + 1;
                assert(rep@.sources[k as int] == eval_source::outcome_view(rep.sources@[k as int]));
                let outcome: Result<Vec<Datum>, String> = match &rep.sources[k] {
                    Ok(v) => Ok(eval_source::copy_values(v)),
                    Err(m) => Err(m.clone()),
                };
                let ctx: EvalContext = EvalContext { var_name: name.clone(), outcome };
                assert(ctx@ =~= EvalContextV {
                    var_name: name@,
                    outcome: rep@.sources[k as int],
                });
                let ev: Result<EvaluatedSource, EvalError> = source.evaluate(Some(&ctx));
                finish_clause(name, source, ev, rep, at)
            } else {
                Err(
                    Stop::Ask(
                        Question::Source {
                            var: name.clone(),
                            text,
                            prefix: copy_bindings(prefix),
                        },
                    ),
                )
            }
        },
    }
}

/// The length of a single axis.
fn axis_size_of(idx: &IndexFn) -> (r: Option<u64>)
    ensures
        r == axis_size(idx@),
{
    match idx {
        IndexFn::Lattice { axis_sizes } => if axis_sizes.len() == 1 {
            Some(axis_sizes[0])
        } else {
            None
        },
        IndexFn::Lockstep { length } => Some(*length),
        _ => None,
    }
}

fn copy_index(idx: &Option<IndexFn>) -> (r: Option<IndexFn>)
    ensures
        metadata::index_view(r) == metadata::index_view(*idx),
{
    match idx {
        Some(i) => Some(i.copy()),
        None => None,
    }
}

/// Note a child of a product that stands at this depth.
fn note_child(noted: &mut Noted, depth: usize, node: &EvaluatedNode)
    ensures
        final(noted).view() == noted_child(old(noted).view(), depth as nat, node.view()),
{
    if noted.fns.len() <= depth {
        let ghost before = noted.fns@;
        noted.fns.push(copy_index(&node.index_fn));
        assert(metadata::index_views(noted.fns@) =~= metadata::index_views(before).push(
            metadata::index_view(node.index_fn),
        ));
    } else {
        let changed: bool = match &noted.fns[depth] {
            Some(prev) => match axis_size_of(prev) {
                Some(n) => n != node.tuples.len() as u64,
                None => true,
            },
            None => false,
        };
        proof {
            assert(noted.view().fns[depth as int] == metadata::index_view(
                noted.fns@[depth as int],
            ));
            assert(node.view().tuples.len() == node.tuples@.len());
        }
        if changed {
            noted.dependent = true;
        }
    }
}

/// Add each tail with the head in front of it.
fn add_headed(out: &mut Vec<RuntimeTuple>, head: &RuntimeTuple, tails: &Vec<RuntimeTuple>)
    ensures
        runtime_views(final(out)@) == runtime_views(old(out)@) + headed(
            polydat_kernel::binding_views(head@),
            runtime_views(tails@),
        ),
{
    let ghost h = polydat_kernel::binding_views(head@);
    let ghost all = headed(h, runtime_views(tails@));
    let ghost start = runtime_views(out@);
    let mut i: usize = 0;
    assert(start + all.take(0) =~= start);
    while i < tails.len()
        invariant
            i <= tails@.len(),
            h == polydat_kernel::binding_views(head@),
            all == headed(h, runtime_views(tails@)),
            runtime_views(out@) == start + all.take(i as int),
        decreases tails.len() - i,
    {
        let mut merged: RuntimeTuple = copy_bindings(head);
        add_bindings(&mut merged, &tails[i]);
        let ghost mv = polydat_kernel::binding_views(merged@);
        assert(mv == all[i as int]);
        push_tuple(out, merged);
        i = i + 1;
        assert(start + all.take(i as int) =~= (start + all.take(i - 1)).push(all[i - 1]));
    }
    assert(all.take(i as int) =~= all);
}

/// The tuples of the children from `from` on, each under those before.
fn evaluate_cartesian_rec(
    children: &Vec<Comprehension>,
    from: usize,
    prefix: &RuntimeTuple,
    noted: &mut Noted,
    rep: &Replies,
    at: &mut At,
) -> (r: Result<Vec<RuntimeTuple>, Stop>)
    requires
        from < children@.len(),
        all_supported(ast::comp_views(children@)),
    ensures
        eval_product(
            ast::comp_views(children@).skip(from as int),
            polydat_kernel::binding_views(prefix@),
            old(noted).view(),
            rep@,
            old(at).view(),
        ) == (tuples_result(r), final(noted).view(), final(at).view()),
    decreases weights(ast::comp_views(children@).skip(from as int)), 0nat,
{
    let ghost views = ast::comp_views(children@);
    let ghost rest = views.skip(from as int);
    let ghost pv = polydat_kernel::binding_views(prefix@);
    proof {
        ast::lemma_comp_views(children@);
        lemma_weights(views, from as int);
        lemma_all_supported(views, from as int);
        assert(rest[0] == ast::comp_view(children@[from as int]));
        assert(rest.drop_first() =~= views.skip(from + 1));
    }
    let head: EvaluatedNode = match evaluate_node(&children[from], prefix, rep, at) {
        Ok(n) => n,
        Err(e) => return Err(e),
    };
    let ghost node = head.view();
    assert(pv.len() == prefix@.len());
    note_child(noted, prefix.len(), &head);
    let total: usize = children.len();
    let following: usize = from + 1;
    if following == total {
        assert(rest.len() == 1);
        return Ok(head.tuples);
    }
    let heads: Vec<RuntimeTuple> = head.tuples;
    let ghost all = runtime_views(heads@);
    let ghost noted0 = noted.view();
    let ghost at0 = at.view();
    let ghost tail = views.skip(from + 1);
    let mut out: Vec<RuntimeTuple> = Vec::new();
    let mut i: usize = 0;
    proof {
        assert(all.take(0) =~= Seq::<BindingsV>::empty());
        assert(runtime_views(out@) =~= Seq::<BindingsV>::empty());
    }
    while i < heads.len()
        invariant
            i <= heads@.len(),
            following == from + 1,
            following < children@.len(),
            views == ast::comp_views(children@),
            all_supported(views),
            rest == views.skip(from as int),
            tail == views.skip(from + 1),
            weights(tail) < weights(rest),
            all == runtime_views(heads@),
            pv == polydat_kernel::binding_views(prefix@),
            eval_tails(all.take(i as int), tail, pv, noted0, rep@, at0) == (
                Ok::<Seq<BindingsV>, StopV>(runtime_views(out@)),
                noted.view(),
                at.view(),
            ),
            eval_product(rest, pv, old(noted).view(), rep@, old(at).view()) == eval_tails(
                all,
                tail,
                pv,
                noted0,
                rep@,
                at0,
            ),
        decreases heads.len() - i,
    {
        proof {
            assert(all.take(i + 1).drop_last() =~= all.take(i as int));
            assert(all.take(i + 1).last() == all[i as int]);
        }
        let mut extended: RuntimeTuple = copy_bindings(prefix);
        add_bindings(&mut extended, &heads[i]);
        assert(polydat_kernel::binding_views(extended@) == pv + all[i as int]);
        match evaluate_cartesian_rec(children, following, &extended, noted, rep, at) {
            Ok(tails) => {
                add_headed(&mut out, &heads[i], &tails);
            },
            Err(e) => {
                proof {
                    lemma_tails_prefix(all, tail, pv, noted0, rep@, at0, i + 1);
                }
                return Err(e);
            },
        }
        i = i + 1;
    }
    assert(all.take(i as int) =~= all);
    Ok(out)
}

/// Every child under the same bindings.
fn evaluate_each(
    children: &Vec<Comprehension>,
    prefix: &RuntimeTuple,
    rep: &Replies,
    at: &mut At,
) -> (r: Result<Vec<EvaluatedNode>, Stop>)
    requires
        all_supported(ast::comp_views(children@)),
    ensures
        eval_each(
            ast::comp_views(children@),
            polydat_kernel::binding_views(prefix@),
            rep@,
            old(at).view(),
        ) == (
            match r {
                Ok(v) => Ok(node_views(v@)),
                Err(e) => Err(e@),
            },
            final(at).view(),
        ),
    decreases weights(ast::comp_views(children@)), 1nat,
{
    let ghost views = ast::comp_views(children@);
    let ghost pv = polydat_kernel::binding_views(prefix@);
    let mut out: Vec<EvaluatedNode> = Vec::new();
    let mut i: usize = 0;
    proof {
        ast::lemma_comp_views(children@);
        assert(views.take(0) =~= Seq::<CompV>::empty());
        assert(node_views(out@) =~= Seq::<NodeV>::empty());
    }
    while i < children.len()
        invariant
            i <= children@.len(),
            views == ast::comp_views(children@),
            views.len() == children@.len(),
            forall|k: int|
                0 <= k < children@.len() ==> #[trigger] views[k] == ast::comp_view(children@[k]),
            all_supported(views),
            pv == polydat_kernel::binding_views(prefix@),
            eval_each(views.take(i as int), pv, rep@, old(at).view()) == (
                Ok::<Seq<NodeV>, StopV>(node_views(out@)),
                at.view(),
            ),
        decreases children.len() - i,
    {
        proof {
            lemma_weights(views, i as int);
            lemma_all_supported(views, i as int);
            assert(views.take(i + 1).drop_last() =~= views.take(i as int));
            assert(views.take(i + 1).last() == views[i as int]);
        }
        match evaluate_node(&children[i], prefix, rep, at) {
            Ok(n) => {
                let ghost before = out@;
                let ghost nv = n.view();
                out.push(n);
                assert(node_views(out@) =~= node_views(before).push(nv));
            },
            Err(e) => {
                proof {
                    lemma_each_prefix(views, pv, rep@, old(at).view(), i + 1);
                }
                return Err(e);
            },
        }
        i = i + 1;
    }
    assert(views.take(i as int) =~= views);
    Ok(out)
}

/// What a comprehension comes to under the bindings before it.
fn evaluate_node(
    node: &Comprehension,
    prefix: &RuntimeTuple,
    rep: &Replies,
    at: &mut At,
) -> (r: Result<EvaluatedNode, Stop>)
    requires
        supported(ast::comp_view(*node)),
    ensures
        eval(
            ast::comp_view(*node),
            polydat_kernel::binding_views(prefix@),
            rep@,
            old(at).view(),
        ) == (node_result(r), final(at).view()),
    decreases weight(ast::comp_view(*node)), 1nat,
{
    match node {
        Comprehension::Clause { name, source } => evaluate_clause(name, source, prefix, rep, at),
        Comprehension::Cartesian { children } => evaluate_cartesian(children, prefix, rep, at),
        Comprehension::Zip { children, mode } => evaluate_zip(children, *mode, prefix, rep, at),
        Comprehension::Union { children } => evaluate_union(children, prefix, rep, at),
        Comprehension::Filter { child, predicate } => {
            match evaluate_node(&**child, prefix, rep, at) {
                Ok(inner) => apply_filter(inner, predicate, rep, at),
                Err(e) => Err(e),
            }
        },
        Comprehension::Order { child, strategy, truncation } => {
            match evaluate_node(&**child, prefix, rep, at) {
                Ok(inner) => apply_order(inner, *strategy, *truncation, rep, at),
                Err(e) => Err(e),
            }
        },
    }
}

fn evaluate_cartesian(
    children: &Vec<Comprehension>,
    prefix: &RuntimeTuple,
    rep: &Replies,
    at: &mut At,
) -> (r: Result<EvaluatedNode, Stop>)
    requires
        all_supported(ast::comp_views(children@)),
    ensures
        eval(
            CompV::Cartesian(ast::comp_views(children@)),
            polydat_kernel::binding_views(prefix@),
            rep@,
            old(at).view(),
        ) == (node_result(r), final(at).view()),
    decreases weights(ast::comp_views(children@)) + 1, 0nat,
{
    proof {
        ast::lemma_comp_views(children@);
    }
    if children.len() == 0 {
        let none: RuntimeTuple = Vec::new();
        let tuples: Vec<RuntimeTuple> = vec![none];
        let index_fn: IndexFn = IndexFn::Lattice { axis_sizes: vec![1] };
        proof {
            assert(polydat_kernel::binding_views(none@) =~= Seq::empty());
            assert(runtime_views(tuples@) =~= seq![Seq::empty()]);
            assert(index_fn@ =~= IndexFnV::Lattice(seq![1u64]));
        }
        return Ok(EvaluatedNode { tuples, index_fn: Some(index_fn) });
    }
    let mut noted: Noted = Noted { fns: Vec::new(), dependent: false };
    proof {
        assert(noted.view() =~= NotedV { fns: Seq::empty(), dependent: false });
        assert(ast::comp_views(children@).skip(0) =~= ast::comp_views(children@));
    }
    match evaluate_cartesian_rec(children, 0, prefix, &mut noted, rep, at) {
        Ok(tuples) => {
            let index_fn: Option<IndexFn> = if noted.dependent {
                None
            } else {
                metadata::combine_cartesian_index_fn(&noted.fns)
            };
            Ok(EvaluatedNode { tuples, index_fn })
        },
        Err(e) => Err(e),
    }
}

/// The lengths of the children.
fn lengths_of(kids: &Vec<EvaluatedNode>) -> (r: Vec<u64>)
    ensures
        r@ == lengths(node_views(kids@)),
{
    let mut out: Vec<u64> = Vec::new();
    let mut i: usize = 0;
    while i < kids.len()
        invariant
            i <= kids@.len(),
            out@.len() == i,
            forall|k: int| 0 <= k < i ==> #[trigger] out@[k] == kids@[k].tuples@.len() as u64,
        decreases kids.len() - i,
    {
        out.push(kids[i].tuples.len() as u64);
        i = i + 1;
    }
    proof {
        assert forall|k: int| 0 <= k < kids@.len() implies lengths(node_views(kids@))[k]
            == kids@[k].tuples@.len() as u64 by {
            assert(node_views(kids@)[k].tuples.len() == kids@[k].tuples@.len());
        }
        assert(out@ =~= lengths(node_views(kids@)));
    }
    out
}

/// Whether all of `sizes` agree with the first.
fn agree(sizes: &Vec<u64>) -> (r: bool)
    ensures
        r == all_alike(sizes@),
{
    let mut i: usize = 0;
    while i < sizes.len()
        invariant
            i <= sizes@.len(),
            forall|k: int| 0 <= k < i ==> #[trigger] sizes@[k] == sizes@[0],
        decreases sizes.len() - i,
    {
        if sizes[i] != sizes[0] {
            assert(sizes@[i as int] != sizes@[0]);
            return false;
        }
        i = i + 1;
    }
    true
}

/// A run of numbers in brackets.
fn show_list(sizes: &Vec<u64>) -> (r: String)
    ensures
        r@ == list_text(sizes@),
{
    let mut parts: Vec<String> = Vec::new();
    let mut i: usize = 0;
    while i < sizes.len()
        invariant
            i <= sizes@.len(),
            parts@.len() == i,
            forall|k: int|
                0 <= k < i ==> (#[trigger] parts@[k])@ == chars::decimal(sizes@[k] as nat),
        decreases sizes.len() - i,
    {
        parts.push(chars::u64_text(sizes[i]));
        i = i + 1;
    }
    assert(chars::texts(parts@) =~= sizes@.map_values(|n: u64| chars::decimal(n as nat)));
    let mut out: String = "[".to_owned();
    out.append(chars::join(&parts, ", ").as_str());
    out.append("]");
    out
}

/// The smallest of `sizes`.
fn smallest(sizes: &Vec<u64>) -> (r: u64)
    ensures
        r == crate::comprehension::ir::compile::smallest_of(sizes@),
{
    crate::comprehension::ir::compile::smallest(sizes)
}

proof fn lemma_rows_inside(kids: Seq<NodeV>, mode: ZipMode, k: int)
    requires
        0 <= k < kids.len(),
        !(mode is Cycle),
        mode is Strict ==> all_alike(lengths(kids)),
        kids[k].tuples.len() <= u64::MAX,
    ensures
        row_count(lengths(kids), mode) <= kids[k].tuples.len(),
{
    let s = lengths(kids);
    if mode is Strict {
        assert(s[k] == s[0]);
    } else {
        lemma_smallest(s, k);
    }
}

proof fn lemma_smallest(s: Seq<u64>, k: int)
    requires
        0 <= k < s.len(),
    ensures
        crate::comprehension::ir::compile::smallest_of(s) <= s[k],
    decreases s.len(),
{
    if k < s.len() - 1 {
        lemma_smallest(s.drop_last(), k);
    }
}

/// One row of children side by side.
fn build_row(kids: &Vec<EvaluatedNode>, i: u64, mode: ZipMode) -> (r: RuntimeTuple)
    requires
        forall|k: int|
            0 <= k < kids@.len() ==> mode is Cycle || i < (#[trigger] kids@[k]).tuples@.len()
                || kids@[k].tuples@.len() == 0,
    ensures
        polydat_kernel::binding_views(r@) == side_row(node_views(kids@), i as int, mode),
{
    let ghost all = node_views(kids@);
    let mut out: RuntimeTuple = Vec::new();
    let mut k: usize = 0;
    proof {
        assert(all.take(0) =~= Seq::<NodeV>::empty());
        assert(polydat_kernel::binding_views(out@) =~= Seq::empty());
    }
    while k < kids.len()
        invariant
            k <= kids@.len(),
            all == node_views(kids@),
            forall|j: int|
                0 <= j < kids@.len() ==> mode is Cycle || i < (#[trigger] kids@[j]).tuples@.len()
                    || kids@[j].tuples@.len() == 0,
            polydat_kernel::binding_views(out@) == side_row(all.take(k as int), i as int, mode),
        decreases kids.len() - k,
    {
        proof {
            assert(all.take(k + 1).drop_last() =~= all.take(k as int));
            assert(all.take(k + 1).last() == kids@[k as int].view());
            assert(kids@[k as int].view().tuples.len() == kids@[k as int].tuples@.len());
        }
        let len: usize = kids[k].tuples.len();
        let ghost before = polydat_kernel::binding_views(out@);
        if len > 0 {
            let idx: usize = if matches!(mode, ZipMode::Cycle) {
                (i % (len as u64)) as usize
            } else {
                i as usize
            };
            add_bindings(&mut out, &kids[k].tuples[idx]);
        } else {
            assert(before + Seq::empty() =~= before);
        }
        k = k + 1;
    }
    assert(all.take(k as int) =~= all);
    out
}

fn evaluate_zip(
    children: &Vec<Comprehension>,
    mode: ZipMode,
    prefix: &RuntimeTuple,
    rep: &Replies,
    at: &mut At,
) -> (r: Result<EvaluatedNode, Stop>)
    requires
        all_supported(ast::comp_views(children@)),
    ensures
        eval(
            CompV::Zip(ast::comp_views(children@), mode),
            polydat_kernel::binding_views(prefix@),
            rep@,
            old(at).view(),
        ) == (node_result(r), final(at).view()),
    decreases weights(ast::comp_views(children@)) + 1, 0nat,
{
    proof {
        ast::lemma_comp_views(children@);
    }
    if children.len() == 0 {
        let none: RuntimeTuple = Vec::new();
        let tuples: Vec<RuntimeTuple> = vec![none];
        proof {
            assert(polydat_kernel::binding_views(none@) =~= Seq::empty());
            assert(runtime_views(tuples@) =~= seq![Seq::empty()]);
        }
        return Ok(EvaluatedNode { tuples, index_fn: Some(IndexFn::Lockstep { length: 1 }) });
    }
    let per_child: Vec<EvaluatedNode> = match evaluate_each(children, prefix, rep, at) {
        Ok(v) => v,
        Err(e) => return Err(e),
    };
    let ghost kids = node_views(per_child@);
    proof {
        lemma_each_len(
            ast::comp_views(children@),
            polydat_kernel::binding_views(prefix@),
            rep@,
            old(at).view(),
        );
        assert(kids.len() > 0);
    }
    let sizes: Vec<u64> = lengths_of(&per_child);
    if matches!(mode, ZipMode::Strict) && !agree(&sizes) {
        let mut out: String = "zip strict: child lengths differ (".to_owned();
        out.append(show_list(&sizes).as_str());
        out.append(")");
        return Err(Stop::Failed(RuntimeError::UnsupportedShape(out)));
    }
    let iter_count: u64 = match mode {
        ZipMode::Strict => sizes[0],
        ZipMode::Truncate => smallest(&sizes),
        ZipMode::Cycle => crate::comprehension::strategies::largest(&sizes),
    };
    let mut tuples: Vec<RuntimeTuple> = Vec::new();
    let mut i: u64 = 0;
    assert(runtime_views(tuples@) =~= Seq::new(0, |k: int| side_row(kids, k, mode)));
    while i < iter_count
        invariant
            i <= iter_count,
            kids == node_views(per_child@),
            iter_count == row_count(lengths(kids), mode),
            mode is Strict ==> all_alike(lengths(kids)),
            runtime_views(tuples@) == Seq::new(i as nat, |k: int| side_row(kids, k, mode)),
        decreases iter_count - i,
    {
        proof {
            assert forall|k: int| 0 <= k < per_child@.len() implies mode is Cycle || i < (
            #[trigger] per_child@[k]).tuples@.len() || per_child@[k].tuples@.len() == 0 by {
                if !(mode is Cycle) {
                    assert(kids[k].tuples.len() == per_child@[k].tuples@.len());
                    assert(per_child@[k].tuples.len() == per_child@[k].tuples@.len());
                    lemma_rows_inside(kids, mode, k);
                }
            }
        }
        let bindings: RuntimeTuple = build_row(&per_child, i, mode);
        push_tuple(&mut tuples, bindings);
        i = i + 1;
        assert(runtime_views(tuples@) =~= Seq::new(i as nat, |k: int| side_row(kids, k, mode)));
    }
    let index_fn: IndexFn = match mode {
        ZipMode::Cycle => IndexFn::Modular { axis_sizes: sizes },
        _ => IndexFn::Lockstep { length: iter_count },
    };
    Ok(EvaluatedNode { tuples, index_fn: Some(index_fn) })
}

proof fn lemma_each_len(s: Seq<CompV>, prefix: BindingsV, rep: RepliesV, at: AtV)
    ensures
        eval_each(s, prefix, rep, at).0 matches Ok(v) ==> v.len() == s.len(),
    decreases s.len(),
{
    if s.len() > 0 {
        lemma_each_len(s.drop_last(), prefix, rep, at);
    }
}

fn evaluate_union(
    children: &Vec<Comprehension>,
    prefix: &RuntimeTuple,
    rep: &Replies,
    at: &mut At,
) -> (r: Result<EvaluatedNode, Stop>)
    requires
        all_supported(ast::comp_views(children@)),
    ensures
        eval(
            CompV::Union(ast::comp_views(children@)),
            polydat_kernel::binding_views(prefix@),
            rep@,
            old(at).view(),
        ) == (node_result(r), final(at).view()),
    decreases weights(ast::comp_views(children@)) + 1, 0nat,
{
    let per_child: Vec<EvaluatedNode> = match evaluate_each(children, prefix, rep, at) {
        Ok(v) => v,
        Err(e) => return Err(e),
    };
    let ghost kids = node_views(per_child@);
    let segment_sizes: Vec<u64> = lengths_of(&per_child);
    let mut all_addressable: bool = true;
    let mut tuples: Vec<RuntimeTuple> = Vec::new();
    let mut i: usize = 0;
    proof {
        assert(kids.take(0) =~= Seq::<NodeV>::empty());
        assert(runtime_views(tuples@) =~= Seq::<BindingsV>::empty());
    }
    while i < per_child.len()
        invariant
            i <= per_child@.len(),
            kids == node_views(per_child@),
            all_addressable == forall|k: int| 0 <= k < i ==> (#[trigger] kids[k]).index is Some,
            runtime_views(tuples@) == all_tuples(kids.take(i as int)),
        decreases per_child.len() - i,
    {
        proof {
            assert(kids.take(i + 1).drop_last() =~= kids.take(i as int));
            assert(kids.take(i + 1).last() == kids[i as int]);
            assert(kids[i as int] == per_child@[i as int].view());
        }
        if per_child[i].index_fn.is_none() {
            all_addressable = false;
            assert(!(kids[i as int].index is Some));
        }
        add_tuples(&mut tuples, &per_child[i].tuples);
        i = i + 1;
    }
    assert(kids.take(i as int) =~= kids);
    let index_fn: Option<IndexFn> = if all_addressable {
        Some(IndexFn::Concatenation { segment_sizes })
    } else {
        None
    };
    Ok(EvaluatedNode { tuples, index_fn })
}

/// Add every tuple at the end.
fn add_tuples(out: &mut Vec<RuntimeTuple>, more: &Vec<RuntimeTuple>)
    ensures
        runtime_views(final(out)@) == runtime_views(old(out)@) + runtime_views(more@),
{
    let ghost all = runtime_views(more@);
    let ghost start = runtime_views(out@);
    let mut i: usize = 0;
    assert(start + all.take(0) =~= start);
    while i < more.len()
        invariant
            i <= more@.len(),
            all == runtime_views(more@),
            runtime_views(out@) == start + all.take(i as int),
        decreases more.len() - i,
    {
        push_tuple(out, copy_bindings(&more[i]));
        i = i + 1;
        assert(start + all.take(i as int) =~= (start + all.take(i - 1)).push(all[i - 1]));
    }
    assert(all.take(i as int) =~= all);
}

/// What the reply to a condition says.
fn read_verdict(predicate: &String, reply: &FilterReply) -> (r: Result<bool, Stop>)
    ensures
        verdict(predicate@, reply@) == match r {
            Ok(b) => Ok::<bool, StopV>(b),
            Err(e) => Err::<bool, StopV>(e@),
        },
{
    match reply {
        FilterReply::Failed(m) => Err(
            Stop::Failed(
                RuntimeError::FilterEval { predicate: predicate.clone(), message: m.clone() },
            ),
        ),
        FilterReply::Verdict { value, shown } => match value {
            Datum::Bool(b) => Ok(*b),
            Datum::U64(n) => Ok(*n != 0),
            Datum::F64(x) => Ok(!x.is_zero()),
            _ => {
                let mut message: String = "expected bool/u64/f64, got ".to_owned();
                message.append(shown.as_str());
                Err(
                    Stop::Failed(
                        RuntimeError::FilterEval { predicate: predicate.clone(), message },
                    ),
                )
            },
        },
    }
}

/// The tuples of `input` for which the condition holds.
fn apply_filter(input: EvaluatedNode, predicate: &String, rep: &Replies, at: &mut At) -> (r:
    Result<EvaluatedNode, Stop>)
    ensures
        ({
            let (kept, last) = eval_filter(
                input.view().tuples,
                predicate@,
                rep@,
                old(at).view(),
            );
            node_result(r) == (match kept {
                Err(e) => Err(e),
                Ok(tuples) => Ok(NodeV { tuples, index: None }),
            }) && final(at).view() == last
        }),
{
    let ghost all = runtime_views(input.tuples@);
    let mut out: Vec<RuntimeTuple> = Vec::new();
    let mut i: usize = 0;
    proof {
        assert(all.take(0) =~= Seq::<BindingsV>::empty());
        assert(runtime_views(out@) =~= Seq::<BindingsV>::empty());
    }
    while i < input.tuples.len()
        invariant
            i <= input.tuples@.len(),
            all == runtime_views(input.tuples@),
            eval_filter(all.take(i as int), predicate@, rep@, old(at).view()) == (
                Ok::<Seq<BindingsV>, StopV>(runtime_views(out@)),
                at.view(),
            ),
        decreases input.tuples.len() - i,
    {
        proof {
            assert(all.take(i + 1).drop_last() =~= all.take(i as int));
            assert(all.take(i + 1).last() == all[i as int]);
        }
        if at.filters >= rep.filters.len() {
            proof {
                lemma_filter_prefix(all, predicate@, rep@, old(at).view(), i + 1);
            }
            return Err(
                Stop::Ask(
                    Question::Filter {
                        predicate: predicate.clone(),
                        tuple: copy_bindings(&input.tuples[i]),
                    },
                ),
            );
        }
        let k: usize = at.filters;
        at.filters = k + 1;
        assert(rep@.filters[k as int] == rep.filters@[k as int]@);
        match read_verdict(predicate, &rep.filters[k]) {
            Ok(keep) => {
                if keep {
                    push_tuple(&mut out, copy_bindings(&input.tuples[i]));
                }
            },
            Err(e) => {
                proof {
                    lemma_filter_prefix(all, predicate@, rep@, old(at).view(), i + 1);
                }
                return Err(e);
            },
        }
        i = i + 1;
    }
    assert(all.take(i as int) =~= all);
    Ok(EvaluatedNode { tuples: out, index_fn: None })
}

/// A tuple as an order sees it.
fn to_plain(b: &RuntimeTuple, rep: &Replies, at: &mut At) -> (r: Result<Tuple, Stop>)
    ensures
        plain_tuple(polydat_kernel::binding_views(b@), rep@, old(at).view()) == (
            match r {
                Ok(t) => Ok::<TupleV, StopV>(t@),
                Err(e) => Err::<TupleV, StopV>(e@),
            },
            final(at).view(),
        ),
{
    let ghost all = polydat_kernel::binding_views(b@);
    let mut out: Tuple = Tuple::new();
    let mut i: usize = 0;
    assert(all.take(0) =~= Seq::empty());
    while i < b.len()
        invariant
            i <= b@.len(),
            all == polydat_kernel::binding_views(b@),
            plain_tuple(all.take(i as int), rep@, old(at).view()) == (
                Ok::<TupleV, StopV>(out@),
                at.view(),
            ),
        decreases b.len() - i,
    {
        proof {
            assert(all.take(i + 1).drop_last() =~= all.take(i as int));
            assert(all.take(i + 1).last() == all[i as int]);
        }
        let tv: TupleValue = match polydat_kernel::polydat_value_to_tuple_value(&b[i].1) {
            Some(v) => v,
            None => {
                if at.displays >= rep.displays.len() {
                    proof {
                        lemma_plain_prefix(all, rep@, old(at).view(), i + 1);
                    }
                    return Err(Stop::Ask(Question::Display(b[i].1.copy())));
                }
                let k: usize = at.displays;
                at.displays = k + 1;
                assert(rep@.displays[k as int] == rep.displays@[k as int]@);
                TupleValue::Str(rep.displays[k].clone())
            },
        };
        out = out.with(b[i].0.as_str(), tv);
        i = i + 1;
    }
    assert(all.take(i as int) =~= all);
    Ok(out)
}

/// The tuples as an order sees them.
fn to_plain_all(tuples: &Vec<RuntimeTuple>, rep: &Replies, at: &mut At) -> (r: Result<
    Vec<Tuple>,
    Stop,
>)
    ensures
        plain_tuples(runtime_views(tuples@), rep@, old(at).view()) == (
            match r {
                Ok(t) => Ok::<Seq<TupleV>, StopV>(tuple::tuple_views(t@)),
                Err(e) => Err::<Seq<TupleV>, StopV>(e@),
            },
            final(at).view(),
        ),
{
    let ghost all = runtime_views(tuples@);
    let mut out: Vec<Tuple> = Vec::new();
    let mut i: usize = 0;
    proof {
        assert(all.take(0) =~= Seq::<BindingsV>::empty());
        assert(tuple::tuple_views(out@) =~= Seq::<TupleV>::empty());
    }
    while i < tuples.len()
        invariant
            i <= tuples@.len(),
            all == runtime_views(tuples@),
            plain_tuples(all.take(i as int), rep@, old(at).view()) == (
                Ok::<Seq<TupleV>, StopV>(tuple::tuple_views(out@)),
                at.view(),
            ),
        decreases tuples.len() - i,
    {
        proof {
            assert(all.take(i + 1).drop_last() =~= all.take(i as int));
            assert(all.take(i + 1).last() == all[i as int]);
        }
        match to_plain(&tuples[i], rep, at) {
            Ok(t) => {
                let ghost before = out@;
                let ghost tv = t@;
                out.push(t);
                assert(tuple::tuple_views(out@) =~= tuple::tuple_views(before).push(tv));
            },
            Err(e) => {
                proof {
                    lemma_plains_prefix(all, rep@, old(at).view(), i + 1);
                }
                return Err(e);
            },
        }
        i = i + 1;
    }
    assert(all.take(i as int) =~= all);
    Ok(out)
}

fn same_value(a: &TupleValue, b: &TupleValue) -> (r: bool)
    ensures
        r == values_equal(a@, b@),
{
    match (a, b) {
        (TupleValue::U64(x), TupleValue::U64(y)) => *x == *y,
        (TupleValue::I64(x), TupleValue::I64(y)) => *x == *y,
        (TupleValue::F64(x), TupleValue::F64(y)) => match x.compare(*y) {
            Some(s) => matches!(s, Side::Same),
            None => false,
        },
        (TupleValue::Str(x), TupleValue::Str(y)) => *x.as_str() == *y.as_str(),
        (TupleValue::Bool(x), TupleValue::Bool(y)) => *x == *y,
        _ => false,
    }
}

fn same_tuple(a: &Tuple, b: &Tuple) -> (r: bool)
    ensures
        r == tuples_equal(a@, b@),
{
    if a.bindings.len() != b.bindings.len() {
        return false;
    }
    let mut i: usize = 0;
    while i < a.bindings.len()
        invariant
            i <= a.bindings@.len(),
            a.bindings@.len() == b.bindings@.len(),
            forall|k: int|
                0 <= k < i ==> (#[trigger] a@[k]).0 == b@[k].0 && values_equal(a@[k].1, b@[k].1),
        decreases a.bindings.len() - i,
    {
        assert(a@[i as int] == (a.bindings@[i as int].0@, a.bindings@[i as int].1@));
        assert(b@[i as int] == (b.bindings@[i as int].0@, b.bindings@[i as int].1@));
        if !(*a.bindings[i].0.as_str() == *b.bindings[i].0.as_str()) || !same_value(
            &a.bindings[i].1,
            &b.bindings[i].1,
        ) {
            return false;
        }
        i = i + 1;
    }
    true
}

/// The first tuple that is not used and equals `t`.
fn find_match(tuples: &Vec<Tuple>, used: &Vec<bool>, t: &Tuple) -> (r: Option<usize>)
    requires
        used@.len() == tuples@.len(),
    ensures
        match r {
            Some(i) => first_match(tuple::tuple_views(tuples@), used@, t@, 0) == Some(i as int)
                && i < tuples@.len(),
            None => first_match(tuple::tuple_views(tuples@), used@, t@, 0) is None,
        },
{
    let ghost all = tuple::tuple_views(tuples@);
    let mut i: usize = 0;
    while i < tuples.len()
        invariant
            i <= tuples@.len(),
            used@.len() == tuples@.len(),
            all == tuple::tuple_views(tuples@),
            first_match(all, used@, t@, 0) == first_match(all, used@, t@, i as int),
        decreases tuples.len() - i,
    {
        assert(all[i as int] == tuples@[i as int]@);
        if !used[i] && same_tuple(&tuples[i], t) {
            return Some(i);
        }
        i = i + 1;
    }
    None
}

proof fn lemma_places_prefix(ordered: Seq<TupleV>, s: Seq<TupleV>, k: int)
    requires
        0 <= k <= ordered.len(),
        places(ordered.take(k), s) is None,
    ensures
        places(ordered, s) is None,
    decreases ordered.len(),
{
    if k == ordered.len() {
        assert(ordered.take(k) =~= ordered);
    } else {
        assert(ordered.drop_last().take(k) =~= ordered.take(k));
        lemma_places_prefix(ordered.drop_last(), s, k);
    }
}

/// The tuples of `input` in the order of `ordered`, each used once.
fn recover(ordered: &Vec<Tuple>, plain: &Vec<Tuple>, input: &Vec<RuntimeTuple>) -> (r: Option<
    Vec<RuntimeTuple>,
>)
    requires
        plain@.len() == input@.len(),
    ensures
        match (r, places(tuple::tuple_views(ordered@), tuple::tuple_views(plain@))) {
            (Some(v), Some((found, _))) => runtime_views(v@) == found.map_values(
                |i: int| runtime_views(input@)[i],
            ),
            (None, None) => true,
            _ => false,
        },
{
    let ghost want = tuple::tuple_views(ordered@);
    let ghost s = tuple::tuple_views(plain@);
    let ghost rt = runtime_views(input@);
    let mut used: Vec<bool> = Vec::new();
    while used.len() < plain.len()
        invariant
            used@.len() <= plain@.len(),
            forall|k: int| 0 <= k < used@.len() ==> !#[trigger] used@[k],
        decreases plain.len() - used.len(),
    {
        used.push(false);
    }
    let mut out: Vec<RuntimeTuple> = Vec::new();
    let mut i: usize = 0;
    let ghost mut found: Seq<int> = Seq::empty();
    proof {
        assert(want.take(0) =~= Seq::<TupleV>::empty());
        assert(used@ =~= Seq::new(s.len(), |i: int| false));
        assert(runtime_views(out@) =~= found.map_values(|i: int| rt[i]));
    }
    while i < ordered.len()
        invariant
            i <= ordered@.len(),
            want == tuple::tuple_views(ordered@),
            s == tuple::tuple_views(plain@),
            rt == runtime_views(input@),
            plain@.len() == input@.len(),
            used@.len() == plain@.len(),
            places(want.take(i as int), s) == Some((found, used@)),
            runtime_views(out@) == found.map_values(|i: int| rt[i]),
        decreases ordered.len() - i,
    {
        proof {
            assert(want.take(i + 1).drop_last() =~= want.take(i as int));
            assert(want.take(i + 1).last() == ordered@[i as int]@);
        }
        match find_match(plain, &used, &ordered[i]) {
            Some(k) => {
                used.set(k, true);
                let ghost before = out@;
                push_tuple(&mut out, copy_bindings(&input[k]));
                proof {
                    let was = found;
                    found = found.push(k as int);
                    assert(rt[k as int] == polydat_kernel::binding_views(input@[k as int]@));
                    assert(runtime_views(out@) =~= found.map_values(|i: int| rt[i]));
                }
            },
            None => {
                proof {
                    lemma_places_prefix(want, s, i + 1);
                }
                return None;
            },
        }
        i = i + 1;
    }
    assert(want.take(i as int) =~= want);
    Some(out)
}

proof fn lemma_plains_len(s: Seq<BindingsV>, rep: RepliesV, at: AtV)
    ensures
        plain_tuples(s, rep, at).0 matches Ok(v) ==> v.len() == s.len(),
    decreases s.len(),
{
    if s.len() > 0 {
        lemma_plains_len(s.drop_last(), rep, at);
    }
}

/// The tuples of `input` in a strategy's order.
fn apply_order(
    input: EvaluatedNode,
    strategy: StrategyName,
    truncation: Option<u64>,
    rep: &Replies,
    at: &mut At,
) -> (r: Result<EvaluatedNode, Stop>)
    requires
        dispatch::chosen(strategy) is Some,
    ensures
        eval_order(input.view(), strategy, truncation, rep@, old(at).view()) == (
            node_result(r),
            final(at).view(),
        ),
{
    let c: Chosen = match dispatch::for_name(strategy) {
        Some(c) => c,
        None => return Err(Stop::Beyond(strategy)),
    };
    let accepted: bool = match &input.index_fn {
        Some(i) => c.accepts_input(Some(i)),
        None => c.accepts_input(None),
    };
    if !accepted {
        return Err(
            Stop::Failed(
                RuntimeError::StrategyRejectsInput {
                    strategy,
                    index_fn: copy_index(&input.index_fn),
                },
            ),
        );
    }
    let plain: Vec<Tuple> = match to_plain_all(&input.tuples, rep, at) {
        Ok(v) => v,
        Err(e) => return Err(e),
    };
    let ghost ts = tuple::tuple_views(plain@);
    proof {
        lemma_plains_len(input.view().tuples, rep@, old(at).view());
        assert(ts.len() == plain@.len());
        assert(input.view().tuples.len() == input.tuples@.len());
    }
    let cardinality: u64 = plain.len() as u64;
    let index_fn: IndexFn = match &input.index_fn {
        Some(i) => i.copy(),
        None => IndexFn::Lattice { axis_sizes: vec![cardinality] },
    };
    let ghost idx = match input.view().index {
        Some(i) => i,
        None => IndexFnV::Lattice(seq![ts.len() as u64]),
    };
    assert(index_fn@ =~= idx);
    if !dispatch::fits(c, &index_fn) {
        return Err(Stop::Beyond(strategy));
    }
    let evaluated_input: EvaluatedInput = EvaluatedInput {
        tuples: tuple::copy_tuples(&plain),
        cardinality,
        index_fn,
    };
    let ordered: Vec<Tuple> = c.apply(&evaluated_input, truncation);
    match recover(&ordered, &plain, &input.tuples) {
        Some(tuples) => {
            let n = EvaluatedNode { tuples, index_fn: None };
            assert(places(tuple::tuple_views(ordered@), ts) is Some);
            Ok(n)
        },
        None => Err(
            Stop::Failed(
                RuntimeError::OrderEval {
                    strategy,
                    message:
                        "ordered tuple lost reference to runtime source — Strategy::apply must return tuples drawn from EvaluatedInput.tuples (per spec §10.7.8)".to_owned(),
                },
            ),
        ),
    }
}

/// Whether stepping through the range of a source stays within 64 bits.
fn is_listable(source: &Source) -> (r: bool)
    ensures
        r == eval_source::listable(source@),
{
    match source {
        Source::IntRange { lo, hi, step } => {
            if *hi <= *lo {
                assert(0 * source::effective_step(*step) == 0);
                true
            } else {
                let by: i128 = if *step < 1 {
                    1
                } else {
                    *step as i128
                };
                let span: i128 = *hi as i128 - *lo as i128 + by - 1;
                let len: i128 = span / by;
                assert(0 <= len * by <= span) by (nonlinear_arith)
                    requires
                        len == span / by,
                        by > 0,
                        span >= 0,
                ;
                proof {
                    assert(source::effective_step(*step) == by);
                    assert(source::range_len(*lo, *hi, *step) == len);
                }
                *lo as i128 + len * by <= i64::MAX as i128
            }
        },
        _ => true,
    }
}

/// Whether every range of `comp` stays within 64 bits and every order's
/// strategy is one that this crate has.
pub fn is_supported(comp: &Comprehension) -> (r: bool)
    ensures
        r == supported(ast::comp_view(*comp)),
    decreases comp,
{
    match comp {
        Comprehension::Clause { name: _, source } => is_listable(source),
        Comprehension::Cartesian { children } => are_supported(children),
        Comprehension::Zip { children, mode: _ } => are_supported(children),
        Comprehension::Union { children } => are_supported(children),
        Comprehension::Filter { child, predicate: _ } => is_supported(child),
        Comprehension::Order { child, strategy, truncation: _ } => is_supported(child)
            && dispatch::for_name(*strategy).is_some(),
    }
}

/// Whether that holds of each of `children`.
fn are_supported(children: &Vec<Comprehension>) -> (r: bool)
    ensures
        r == all_supported(ast::comp_views(children@)),
    decreases children,
{
    let ghost views = ast::comp_views(children@);
    proof {
        ast::lemma_comp_views(children@);
        assert(views.take(0).len() == 0);
    }
    let mut i: usize = 0;
    let mut all: bool = true;
    while i < children.len()
        invariant
            i <= children@.len(),
            views == ast::comp_views(children@),
            views.len() == children@.len(),
            forall|k: int|
                0 <= k < views.len() ==> #[trigger] views[k] == ast::comp_view(children@[k]),
            all == all_supported(views.take(i as int)),
        decreases children.len() - i,
    {
        assert(decreases_to!(children@ => children@[i as int]));
        assert(decreases_to!(*children => children@));
        let one: bool = is_supported(&children[i]);
        proof {
            let next = views.take(i + 1);
            assert(next.drop_last() =~= views.take(i as int));
            assert(next.last() == views[i as int]);
        }
        all = all && one;
        i = i + 1;
    }
    assert(views.take(i as int) =~= views);
    all
}

/// The tuples of `comp`, by the replies given so far.
pub fn evaluate_for_iteration(comp: &Comprehension, replies: &Replies) -> (r: Result<
    Vec<RuntimeTuple>,
    Stop,
>)
    requires
        supported(ast::comp_view(*comp)),
    ensures
        tuples_of_result(r) == outcome(ast::comp_view(*comp), replies@),
{
    let mut at: At = At { sources: 0, filters: 0, empties: 0, displays: 0 };
    let prefix: RuntimeTuple = Vec::new();
    assert(polydat_kernel::binding_views(prefix@) =~= Seq::empty());
    match evaluate_node(comp, &prefix, replies, &mut at) {
        Ok(n) => Ok(n.tuples),
        Err(e) => Err(e),
    }
}

/// The content of the result of an evaluation.
pub open spec fn tuples_of_result(r: Result<Vec<RuntimeTuple>, Stop>) -> Result<
    Seq<BindingsV>,
    StopV,
> {
    match r {
        Ok(v) => Ok(runtime_views(v@)),
        Err(e) => Err(e@),
    }
}

} // verus!
