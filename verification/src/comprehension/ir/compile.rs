//! Compiling a comprehension to a program.
use super::dispense;
use super::op;
use super::op::{Op, OpV, OrderStreamingKind};
use super::program::Program;
use crate::comprehension::ast;
use crate::comprehension::ast::{CompV, Comprehension};
use crate::comprehension::cardinality::{CardinalityClass, CardinalityV};
use crate::comprehension::eval_source;
use crate::comprehension::metadata;
use crate::comprehension::metadata::{IndexFn, IndexFnV};
use crate::comprehension::source;
use crate::comprehension::source::{Source, SourceV};
use crate::comprehension::strategies;
use crate::comprehension::strategies::dispatch;
use crate::comprehension::strategies::{lattice, Strategy};
use crate::comprehension::strategy::{StrategyName, ZipMode};
use crate::comprehension::tuple::TupleV;
use vstd::prelude::*;

verus! {

// ---------------------------------------------------------------------
// How a comprehension's tuples are addressed
// ---------------------------------------------------------------------

/// How the values of a source are addressed.
pub open spec fn source_index(s: SourceV) -> Option<IndexFnV> {
    match source::source_cardinality(s) {
        CardinalityV::Bounded(n) => Some(IndexFnV::Lattice(seq![n])),
        CardinalityV::Continuous(intervals, measure) => Some(
            IndexFnV::Continuous(intervals, measure),
        ),
        _ => None,
    }
}

/// The number of positions of an addressing, at most `u64::MAX`.
pub open spec fn capped_size(idx: IndexFnV) -> u64 {
    if strategies::space_size(idx) <= u64::MAX {
        strategies::space_size(idx) as u64
    } else {
        u64::MAX
    }
}

/// The sizes of a run of children, where each is addressed and discrete.
pub open spec fn discrete_sizes(s: Seq<Option<IndexFnV>>) -> Option<Seq<u64>>
    decreases s.len(),
{
    if s.len() == 0 {
        Some(Seq::empty())
    } else {
        match (discrete_sizes(s.drop_last()), s.last()) {
            (Some(front), Some(idx)) => if strategies::has_continuous(idx) {
                None
            } else {
                Some(front.push(capped_size(idx)))
            },
            _ => None,
        }
    }
}

/// The smallest of a run of sizes; zero where there is none.
pub open spec fn smallest_of(s: Seq<u64>) -> u64
    decreases s.len(),
{
    if s.len() == 0 {
        0
    } else if s.len() == 1 || s.last() < smallest_of(s.drop_last()) {
        s.last()
    } else {
        smallest_of(s.drop_last())
    }
}

/// How the tuples of a comprehension are addressed, as far as its structure
/// tells.
pub open spec fn addressing(c: CompV) -> Option<IndexFnV>
    decreases c, 0nat,
{
    match c {
        CompV::Clause(_, s) => source_index(s),
        CompV::Cartesian(children) => metadata::product_index(addressings(children)),
        CompV::Zip(children, mode) => match discrete_sizes(addressings(children)) {
            Some(sizes) => match mode {
                ZipMode::Cycle => Some(IndexFnV::Modular(sizes)),
                _ => Some(IndexFnV::Lockstep(smallest_of(sizes))),
            },
            None => None,
        },
        CompV::Union(children) => match discrete_sizes(addressings(children)) {
            Some(sizes) => Some(IndexFnV::Concatenation(sizes)),
            None => None,
        },
        CompV::Filter(_, _) => None,
        CompV::Order(_, _, _) => None,
    }
}

/// How the tuples of each of a run of comprehensions are addressed.
pub open spec fn addressings(s: Seq<CompV>) -> Seq<Option<IndexFnV>>
    decreases s, s.len(),
{
    if s.len() == 0 {
        Seq::empty()
    } else {
        addressings(s.drop_last()).push(addressing(s.last()))
    }
}

/// How the values of `source` are addressed.
fn index_of_source(from: &Source) -> (r: Option<IndexFn>)
    ensures
        metadata::index_view(r) == source_index(from@),
{
    match from.cardinality() {
        CardinalityClass::Bounded(n) => {
            let idx: IndexFn = IndexFn::Lattice { axis_sizes: vec![n] };
            assert(idx@ =~= IndexFnV::Lattice(seq![n]));
            Some(idx)
        },
        CardinalityClass::Continuous { intervals, measure } => Some(
            IndexFn::Continuous { intervals, measure },
        ),
        _ => None,
    }
}

proof fn lemma_discrete_sizes_prefix(s: Seq<Option<IndexFnV>>, k: int)
    requires
        0 <= k <= s.len(),
        discrete_sizes(s.take(k)) is None,
    ensures
        discrete_sizes(s) is None,
    decreases s.len(),
{
    if k == s.len() {
        assert(s.take(k) =~= s);
    } else {
        assert(s.drop_last().take(k) =~= s.take(k));
        lemma_discrete_sizes_prefix(s.drop_last(), k);
    }
}

/// The sizes of the children, where each is addressed and discrete.
fn sizes_of(children: &Vec<Option<IndexFn>>) -> (r: Option<Vec<u64>>)
    ensures
        match (r, discrete_sizes(metadata::index_views(children@))) {
            (Some(v), Some(want)) => v@ == want,
            (None, None) => true,
            _ => false,
        },
{
    let ghost all = metadata::index_views(children@);
    let mut out: Vec<u64> = Vec::new();
    let mut i: usize = 0;
    assert(all.take(0) =~= Seq::<Option<IndexFnV>>::empty());
    while i < children.len()
        invariant
            i <= children@.len(),
            all == metadata::index_views(children@),
            discrete_sizes(all.take(i as int)) == Some(out@),
        decreases children.len() - i,
    {
        proof {
            assert(all.take(i + 1).drop_last() =~= all.take(i as int));
            assert(all.take(i + 1).last() == metadata::index_view(children@[i as int]));
        }
        let mut size: Option<u64> = None;
        if let Some(idx) = &children[i] {
            if !idx.has_continuous_axis() {
                size = Some(strategies::index_fn_size(idx));
            }
        }
        match size {
            Some(n) => {
                out.push(n);
            },
            None => {
                proof {
                    lemma_discrete_sizes_prefix(all, i + 1);
                }
                return None;
            },
        }
        i = i + 1;
    }
    assert(all.take(i as int) =~= all);
    Some(out)
}

/// The smallest of `sizes`; zero where there is none.
pub(crate) fn smallest(sizes: &Vec<u64>) -> (r: u64)
    ensures
        r == smallest_of(sizes@),
{
    if sizes.len() == 0 {
        return 0;
    }
    let mut acc: u64 = sizes[0];
    let mut i: usize = 1;
    assert(sizes@.take(1).len() == 1);
    while i < sizes.len()
        invariant
            1 <= i <= sizes@.len(),
            acc == smallest_of(sizes@.take(i as int)),
        decreases sizes.len() - i,
    {
        assert(sizes@.take(i + 1).drop_last() =~= sizes@.take(i as int));
        if sizes[i] < acc {
            acc = sizes[i];
        }
        i = i + 1;
    }
    assert(sizes@.take(i as int) =~= sizes@);
    acc
}

/// How the tuples of each of `children` are addressed.
fn index_of_children(children: &Vec<Comprehension>) -> (r: Vec<Option<IndexFn>>)
    ensures
        metadata::index_views(r@) == addressings(ast::comp_views(children@)),
    decreases children,
{
    let mut out: Vec<Option<IndexFn>> = Vec::new();
    let mut i: usize = 0;
    let ghost views = ast::comp_views(children@);
    proof {
        ast::lemma_comp_views(children@);
        assert(views.take(0) =~= Seq::<CompV>::empty());
        assert(metadata::index_views(out@) =~= addressings(views.take(0)));
    }
    while i < children.len()
        invariant
            i <= children@.len(),
            views == ast::comp_views(children@),
            views.len() == children@.len(),
            forall|k: int|
                0 <= k < children@.len() ==> #[trigger] views[k] == ast::comp_view(children@[k]),
            metadata::index_views(out@) == addressings(views.take(i as int)),
        decreases children.len() - i,
    {
        proof {
            assert(views.take(i + 1).drop_last() =~= views.take(i as int));
            assert(views.take(i + 1).last() == views[i as int]);
            assert(decreases_to!(children@ => children@[i as int]));
            assert(decreases_to!(*children => children@));
        }
        let ghost before = out@;
        let idx: Option<IndexFn> = index_of(&children[i]);
        let ghost iv = metadata::index_view(idx);
        out.push(idx);
        assert(metadata::index_views(out@) =~= metadata::index_views(before).push(iv));
        i = i + 1;
    }
    assert(views.take(i as int) =~= views);
    out
}

/// How the tuples of `c` are addressed, as far as its structure tells.
pub fn index_of(c: &Comprehension) -> (r: Option<IndexFn>)
    ensures
        metadata::index_view(r) == addressing(ast::comp_view(*c)),
    decreases c,
{
    match c {
        Comprehension::Clause { source, .. } => index_of_source(source),
        Comprehension::Cartesian { children } => metadata::combine_cartesian_index_fn(
            &index_of_children(children),
        ),
        Comprehension::Zip { children, mode } => match sizes_of(&index_of_children(children)) {
            Some(axis_sizes) => match mode {
                ZipMode::Cycle => Some(IndexFn::Modular { axis_sizes }),
                _ => Some(IndexFn::Lockstep { length: smallest(&axis_sizes) }),
            },
            None => None,
        },
        Comprehension::Union { children } => match sizes_of(&index_of_children(children)) {
            Some(segment_sizes) => Some(IndexFn::Concatenation { segment_sizes }),
            None => None,
        },
        Comprehension::Filter { .. } => None,
        Comprehension::Order { .. } => None,
    }
}

// ---------------------------------------------------------------------
// The program of a comprehension
// ---------------------------------------------------------------------

/// The instruction for an order over a child addressed this way.
pub open spec fn order_op(
    strategy: StrategyName,
    truncation: Option<u64>,
    idx: Option<IndexFnV>,
) -> OpV {
    if strategy is Lex {
        OpV::OrderStreaming(OrderStreamingKind::Lex, truncation)
    } else {
        OpV::OrderMaterialize(
            strategy,
            truncation,
            match (dispatch::chosen(strategy), idx) {
                (Some(c), Some(i)) => c.closed_form(i),
                _ => false,
            },
            idx,
        )
    }
}

/// The instructions of a comprehension: those of its children, then its
/// own.
pub open spec fn code(c: CompV) -> Seq<OpV>
    decreases c, 0nat,
{
    match c {
        CompV::Clause(name, s) => seq![OpV::PushClause(name, s)],
        CompV::Cartesian(children) => codes(children).push(OpV::Cartesian(children.len())),
        CompV::Zip(children, mode) => codes(children).push(OpV::Zip(children.len(), mode)),
        CompV::Union(children) => codes(children).push(OpV::Union(children.len())),
        CompV::Filter(child, p) => code(*child).push(OpV::Filter(p)),
        CompV::Order(child, strategy, truncation) => code(*child).push(
            order_op(strategy, truncation, addressing(*child)),
        ),
    }
}

/// The instructions of a run of comprehensions, one after the other.
pub open spec fn codes(s: Seq<CompV>) -> Seq<OpV>
    decreases s, s.len(),
{
    if s.len() == 0 {
        Seq::empty()
    } else {
        codes(s.drop_last()) + code(s.last())
    }
}

/// The program of a comprehension.
pub open spec fn compiled(c: CompV) -> Seq<OpV> {
    code(c).push(OpV::Dispense)
}

fn emit_children(children: &Vec<Comprehension>, out: &mut Vec<Op>)
    ensures
        op::op_views(final(out)@) == op::op_views(old(out)@) + codes(
            ast::comp_views(children@),
        ),
    decreases children,
{
    let mut i: usize = 0;
    let ghost views = ast::comp_views(children@);
    proof {
        ast::lemma_comp_views(children@);
        assert(views.take(0) =~= Seq::<CompV>::empty());
        assert(op::op_views(out@) =~= op::op_views(old(out)@) + codes(views.take(0)));
    }
    while i < children.len()
        invariant
            i <= children@.len(),
            views == ast::comp_views(children@),
            views.len() == children@.len(),
            forall|k: int|
                0 <= k < children@.len() ==> #[trigger] views[k] == ast::comp_view(children@[k]),
            op::op_views(out@) == op::op_views(old(out)@) + codes(views.take(i as int)),
        decreases children.len() - i,
    {
        proof {
            assert(views.take(i + 1).drop_last() =~= views.take(i as int));
            assert(views.take(i + 1).last() == views[i as int]);
            assert(decreases_to!(children@ => children@[i as int]));
            assert(decreases_to!(*children => children@));
        }
        emit(&children[i], out);
        proof {
            assert(op::op_views(out@) =~= op::op_views(old(out)@) + (codes(views.take(i as int))
                + code(views[i as int])));
        }
        i = i + 1;
    }
    assert(views.take(i as int) =~= views);
}

/// Add one instruction.
fn emit_op(o: Op, out: &mut Vec<Op>)
    ensures
        op::op_views(final(out)@) == op::op_views(old(out)@).push(o@),
{
    out.push(o);
    assert(op::op_views(out@) =~= op::op_views(old(out)@).push(o@));
}

fn emit(c: &Comprehension, out: &mut Vec<Op>)
    ensures
        op::op_views(final(out)@) == op::op_views(old(out)@) + code(ast::comp_view(*c)),
    decreases c,
{
    let ghost before = op::op_views(out@);
    match c {
        Comprehension::Clause { name, source } => {
            emit_op(Op::PushClause { name: name.clone(), source: source.copy() }, out);
        },
        Comprehension::Cartesian { children } => {
            proof {
                ast::lemma_comp_views(children@);
            }
            emit_children(children, out);
            emit_op(Op::Cartesian { n: children.len() }, out);
        },
        Comprehension::Zip { children, mode } => {
            proof {
                ast::lemma_comp_views(children@);
            }
            emit_children(children, out);
            emit_op(Op::Zip { n: children.len(), mode: *mode }, out);
        },
        Comprehension::Union { children } => {
            proof {
                ast::lemma_comp_views(children@);
            }
            emit_children(children, out);
            emit_op(Op::Union { n: children.len() }, out);
        },
        Comprehension::Filter { child, predicate } => {
            emit(&**child, out);
            emit_op(Op::Filter { predicate: predicate.clone() }, out);
        },
        Comprehension::Order { child, strategy, truncation } => {
            emit(&**child, out);
            let o: Op = if strategy.is_streaming() {
                Op::OrderStreaming { kind: OrderStreamingKind::Lex, truncation: *truncation }
            } else {
                let idx: Option<IndexFn> = index_of(&**child);
                let indexed: bool = match (dispatch::for_name(*strategy), &idx) {
                    (Some(s), Some(i)) => s.has_closed_form_for(i),
                    _ => false,
                };
                Op::OrderMaterialize {
                    strategy: *strategy,
                    truncation: *truncation,
                    indexed,
                    input_index_fn: idx,
                }
            };
            emit_op(o, out);
        },
    }
    proof {
        assert(op::op_views(out@) =~= before + code(ast::comp_view(*c)));
    }
}

/// The program of `c`.
pub fn compile(c: &Comprehension) -> (r: Program)
    ensures
        r@ == compiled(ast::comp_view(*c)),
{
    let mut ops: Vec<Op> = Vec::new();
    assert(op::op_views(ops@) =~= Seq::<OpV>::empty());
    emit(c, &mut ops);
    emit_op(Op::Dispense, &mut ops);
    assert(op::op_views(ops@) =~= compiled(ast::comp_view(*c)));
    Program::new(ops)
}

// ---------------------------------------------------------------------
// What a comprehension dispenses
// ---------------------------------------------------------------------

/// The tuples of a comprehension.
pub open spec fn tuples_of(c: CompV) -> Seq<TupleV>
    decreases c, 0nat,
{
    match c {
        CompV::Clause(name, s) => dispense::clause_tuples(name, s),
        CompV::Cartesian(children) => dispense::cartesian(tuples_of_each(children)),
        CompV::Zip(children, mode) => dispense::zipped(tuples_of_each(children), mode),
        CompV::Union(children) => dispense::joined(tuples_of_each(children)),
        CompV::Filter(child, p) => dispense::kept(tuples_of(*child), p),
        CompV::Order(child, strategy, truncation) => if strategy is Lex {
            lattice::limited(tuples_of(*child), truncation)
        } else {
            dispense::reordered(strategy, tuples_of(*child), addressing(*child), truncation)
        },
    }
}

/// The tuples of each of a run of comprehensions.
pub open spec fn tuples_of_each(s: Seq<CompV>) -> Seq<Seq<TupleV>>
    decreases s, s.len(),
{
    if s.len() == 0 {
        Seq::empty()
    } else {
        tuples_of_each(s.drop_last()).push(tuples_of(s.last()))
    }
}

/// A run of comprehensions has the tuples of each.
pub proof fn lemma_tuples_of_each(s: Seq<CompV>)
    ensures
        tuples_of_each(s).len() == s.len(),
        forall|i: int| 0 <= i < s.len() ==> #[trigger] tuples_of_each(s)[i] == tuples_of(s[i]),
    decreases s.len(),
{
    if s.len() > 0 {
        lemma_tuples_of_each(s.drop_last());
    }
}

/// Whether a comprehension can be dispensed: its ranges stay within 64
/// bits, it zips something where it zips, and an order's strategy is one
/// that this crate has, over an addressing within its limits.
pub open spec fn dispensable(c: CompV) -> bool
    decreases c, 0nat,
{
    match c {
        CompV::Clause(_, s) => eval_source::listable(s),
        CompV::Cartesian(children) => each_dispensable(children),
        CompV::Zip(children, _) => children.len() > 0 && each_dispensable(children),
        CompV::Union(children) => each_dispensable(children),
        CompV::Filter(child, _) => dispensable(*child),
        CompV::Order(child, strategy, _) => {
            &&& dispensable(*child)
            &&& strategy is Lex || match dispatch::chosen(strategy) {
                Some(s) => addressing(*child) matches Some(i) ==> s.within_limits(i),
                None => false,
            }
        },
    }
}

/// Whether each of a run of comprehensions can be dispensed.
pub open spec fn each_dispensable(s: Seq<CompV>) -> bool
    decreases s, s.len(),
{
    s.len() > 0 ==> each_dispensable(s.drop_last()) && dispensable(s.last())
}

proof fn lemma_code_runs(before: Seq<OpV>, c: CompV)
    requires
        dispense::runnable(before),
        dispensable(c),
    ensures
        dispense::runnable(before + code(c)),
        dispense::run(before + code(c)) == dispense::run(before).push(tuples_of(c)),
    decreases c, 0nat,
{
    let stack = dispense::run(before);
    let whole = before + code(c);
    match c {
        CompV::Clause(name, s) => {
            assert(whole.drop_last() =~= before);
            assert(whole.last() == OpV::PushClause(name, s));
        },
        CompV::Cartesian(children) => {
            lemma_codes_run(before, children);
            lemma_tuples_of_each(children);
            assert(whole.drop_last() =~= before + codes(children));
            assert(whole.last() == OpV::Cartesian(children.len()));
            assert((stack + tuples_of_each(children)).skip(stack.len() as int)
                =~= tuples_of_each(children));
            assert((stack + tuples_of_each(children)).take(stack.len() as int) =~= stack);
        },
        CompV::Zip(children, mode) => {
            lemma_codes_run(before, children);
            lemma_tuples_of_each(children);
            assert(whole.drop_last() =~= before + codes(children));
            assert(whole.last() == OpV::Zip(children.len(), mode));
            assert((stack + tuples_of_each(children)).skip(stack.len() as int)
                =~= tuples_of_each(children));
            assert((stack + tuples_of_each(children)).take(stack.len() as int) =~= stack);
        },
        CompV::Union(children) => {
            lemma_codes_run(before, children);
            lemma_tuples_of_each(children);
            assert(whole.drop_last() =~= before + codes(children));
            assert(whole.last() == OpV::Union(children.len()));
            assert((stack + tuples_of_each(children)).skip(stack.len() as int)
                =~= tuples_of_each(children));
            assert((stack + tuples_of_each(children)).take(stack.len() as int) =~= stack);
        },
        CompV::Filter(child, p) => {
            lemma_code_runs(before, *child);
            assert(whole.drop_last() =~= before + code(*child));
            assert(whole.last() == OpV::Filter(p));
            assert(stack.push(tuples_of(*child)).take(stack.len() as int) =~= stack);
        },
        CompV::Order(child, strategy, truncation) => {
            lemma_code_runs(before, *child);
            assert(whole.drop_last() =~= before + code(*child));
            assert(whole.last() == order_op(strategy, truncation, addressing(*child)));
            assert(stack.push(tuples_of(*child)).take(stack.len() as int) =~= stack);
        },
    }
}

proof fn lemma_codes_run(before: Seq<OpV>, s: Seq<CompV>)
    requires
        dispense::runnable(before),
        each_dispensable(s),
    ensures
        dispense::runnable(before + codes(s)),
        dispense::run(before + codes(s)) == dispense::run(before) + tuples_of_each(s),
    decreases s, s.len(),
{
    if s.len() == 0 {
        assert(before + codes(s) =~= before);
        assert(dispense::run(before) + tuples_of_each(s) =~= dispense::run(before));
    } else {
        lemma_codes_run(before, s.drop_last());
        let front = before + codes(s.drop_last());
        lemma_code_runs(front, s.last());
        assert(front + code(s.last()) =~= before + codes(s));
        assert((dispense::run(before) + tuples_of_each(s.drop_last())).push(tuples_of(s.last()))
            =~= dispense::run(before) + tuples_of_each(s));
    }
}

/// The program of a comprehension can be interpreted, and dispenses the
/// comprehension's tuples.
pub proof fn law_compiled_dispenses(c: CompV)
    requires
        dispensable(c),
    ensures
        dispense::complete(compiled(c)),
        dispense::run(compiled(c)).len() == 1,
        dispense::dispensed(compiled(c)) == tuples_of(c),
{
    let none = Seq::<OpV>::empty();
    lemma_code_runs(none, c);
    assert(none + code(c) =~= code(c));
    assert(compiled(c).drop_last() =~= code(c));
}

} // verus!
