//! What instructions do to the tuples of the streams they take.
use super::condition;
use super::op;
use super::op::OpV;
use crate::comprehension::eval_source;
use crate::comprehension::metadata::IndexFnV;
use crate::comprehension::source;
use crate::comprehension::source::SourceV;
use crate::comprehension::strategies::dispatch;
use crate::comprehension::strategies::{lattice, Strategy};
use crate::comprehension::strategy::{StrategyName, ZipMode};
use crate::comprehension::tuple::{TupleV, TupleValueV};
use vstd::prelude::*;

verus! {

/// The tuples of a clause. A source that has no values of its own gives
/// none.
pub open spec fn clause_tuples(name: Seq<char>, s: SourceV) -> Seq<TupleV> {
    match s {
        SourceV::Literal(values) => Seq::new(
            values.len(),
            |i: int| seq![(name, condition::literal_tuple_value(values[i]))],
        ),
        SourceV::IntRange(lo, hi, step) => Seq::new(
            source::range_len(lo, hi, step),
            |i: int| seq![(name, TupleValueV::I64(source::range_values(lo, hi, step)[i]))],
        ),
        _ => Seq::empty(),
    }
}

/// A tuple in front of each of a run.
pub open spec fn prefixed(head: TupleV, tails: Seq<TupleV>) -> Seq<TupleV> {
    Seq::new(tails.len(), |i: int| head + tails[i])
}

/// Each head in front of each tail, the heads varying slowest.
pub open spec fn crossed(heads: Seq<TupleV>, tails: Seq<TupleV>) -> Seq<TupleV>
    decreases heads.len(),
{
    if heads.len() == 0 {
        Seq::empty()
    } else {
        prefixed(heads[0], tails) + crossed(heads.drop_first(), tails)
    }
}

/// Every combination of the axes' tuples, the last axis varying fastest.
pub open spec fn product(axes: Seq<Seq<TupleV>>) -> Seq<TupleV>
    decreases axes.len(),
{
    if axes.len() == 0 {
        seq![Seq::empty()]
    } else {
        crossed(axes[0], product(axes.drop_first()))
    }
}

/// Every combination, none where there is no axis.
pub open spec fn cartesian(axes: Seq<Seq<TupleV>>) -> Seq<TupleV> {
    if axes.len() == 0 {
        Seq::empty()
    } else {
        product(axes)
    }
}

/// The shortest axis' length.
pub open spec fn shortest(axes: Seq<Seq<TupleV>>) -> nat
    decreases axes.len(),
{
    if axes.len() == 0 {
        0
    } else if axes.len() == 1 || axes.last().len() < shortest(axes.drop_last()) {
        axes.last().len()
    } else {
        shortest(axes.drop_last())
    }
}

/// The longest axis' length.
pub open spec fn longest(axes: Seq<Seq<TupleV>>) -> nat
    decreases axes.len(),
{
    if axes.len() == 0 {
        0
    } else if axes.last().len() > longest(axes.drop_last()) {
        axes.last().len()
    } else {
        longest(axes.drop_last())
    }
}

/// The tuples that the axes have at `i`, joined. An axis that is shorter
/// repeats.
pub open spec fn row(axes: Seq<Seq<TupleV>>, i: int) -> TupleV
    decreases axes.len(),
{
    if axes.len() == 0 {
        Seq::empty()
    } else {
        row(axes.drop_last(), i) + axes.last()[i % (axes.last().len() as int)]
    }
}

/// Whether no axis is empty.
pub open spec fn none_empty(axes: Seq<Seq<TupleV>>) -> bool {
    forall|k: int| 0 <= k < axes.len() ==> (#[trigger] axes[k]).len() > 0
}

/// The axes side by side.
pub open spec fn zipped(axes: Seq<Seq<TupleV>>, mode: ZipMode) -> Seq<TupleV> {
    match mode {
        ZipMode::Strict | ZipMode::Truncate => Seq::new(shortest(axes), |i: int| row(axes, i)),
        ZipMode::Cycle => if none_empty(axes) {
            Seq::new(longest(axes), |i: int| row(axes, i))
        } else {
            Seq::empty()
        },
    }
}

/// The axes one after the other.
pub open spec fn joined(axes: Seq<Seq<TupleV>>) -> Seq<TupleV>
    decreases axes.len(),
{
    if axes.len() == 0 {
        Seq::empty()
    } else {
        axes[0] + joined(axes.drop_first())
    }
}

/// The tuples for which a condition holds.
pub open spec fn kept(s: Seq<TupleV>, p: Seq<char>) -> Seq<TupleV>
    decreases s.len(),
{
    if s.len() == 0 {
        Seq::empty()
    } else if condition::holds(p, s[0]) {
        seq![s[0]] + kept(s.drop_first(), p)
    } else {
        kept(s.drop_first(), p)
    }
}

/// The addressing that an order goes by: a single axis where none is known.
pub open spec fn addressed(idx: Option<IndexFnV>, n: nat) -> IndexFnV {
    match idx {
        Some(i) => i,
        None => IndexFnV::Lattice(seq![n as u64]),
    }
}

/// The tuples in a strategy's order.
pub open spec fn reordered(
    strategy: StrategyName,
    s: Seq<TupleV>,
    idx: Option<IndexFnV>,
    truncation: Option<u64>,
) -> Seq<TupleV> {
    match dispatch::chosen(strategy) {
        Some(c) => c.ordered(s, addressed(idx, s.len()), truncation),
        None => Seq::empty(),
    }
}

/// The stack after an instruction.
pub open spec fn step(o: OpV, stack: Seq<Seq<TupleV>>) -> Seq<Seq<TupleV>> {
    let rest = stack.take(stack.len() - op::pops(o));
    let taken = stack.skip(stack.len() - op::pops(o));
    match o {
        OpV::PushClause(name, s) => stack.push(clause_tuples(name, s)),
        OpV::Cartesian(_) => rest.push(cartesian(taken)),
        OpV::Zip(_, mode) => rest.push(zipped(taken, mode)),
        OpV::Union(_) => rest.push(joined(taken)),
        OpV::Filter(p) => rest.push(kept(stack.last(), p)),
        OpV::OrderStreaming(_, truncation) => rest.push(
            lattice::limited(stack.last(), truncation),
        ),
        OpV::OrderMaterialize(strategy, truncation, _, idx) => rest.push(
            reordered(strategy, stack.last(), idx, truncation),
        ),
        OpV::Dispense => stack,
    }
}

/// The stack after a run of instructions.
pub open spec fn run(ops: Seq<OpV>) -> Seq<Seq<TupleV>>
    decreases ops.len(),
{
    if ops.len() == 0 {
        Seq::empty()
    } else {
        step(ops.last(), run(ops.drop_last()))
    }
}

/// Whether an instruction can be interpreted on a stack of this depth: it
/// finds the streams it takes, what it zips is something, a range that it
/// lists stays within 64 bits, and an order's strategy is one that this
/// crate has, over an addressing within its limits.
pub open spec fn runnable_op(o: OpV, depth: nat) -> bool {
    &&& op::pops(o) <= depth
    &&& match o {
        OpV::PushClause(_, s) => eval_source::listable(s),
        OpV::Zip(n, _) => n >= 1,
        OpV::OrderMaterialize(strategy, _, _, idx) => match dispatch::chosen(strategy) {
            Some(c) => idx matches Some(i) ==> c.within_limits(i),
            None => false,
        },
        _ => true,
    }
}

/// Whether a program can be interpreted.
pub open spec fn runnable(ops: Seq<OpV>) -> bool
    decreases ops.len(),
{
    ops.len() > 0 ==> runnable(ops.drop_last()) && runnable_op(
        ops.last(),
        run(ops.drop_last()).len(),
    )
}

/// Whether a program can be interpreted to the end: its last instruction
/// dispenses a stream that the others put on the stack.
pub open spec fn complete(ops: Seq<OpV>) -> bool {
    &&& runnable(ops)
    &&& ops.len() > 0
    &&& ops.last() is Dispense
    &&& run(ops).len() > 0
}

/// The tuples that a program dispenses.
pub open spec fn dispensed(ops: Seq<OpV>) -> Seq<TupleV> {
    run(ops).last()
}

// ---------------------------------------------------------------------
// Facts about the combinators
// ---------------------------------------------------------------------

/// A condition keeps of two runs what it keeps of each.
pub proof fn lemma_kept_concat(a: Seq<TupleV>, b: Seq<TupleV>, p: Seq<char>)
    ensures
        kept(a + b, p) == kept(a, p) + kept(b, p),
    decreases a.len(),
{
    if a.len() == 0 {
        assert(a + b =~= b);
        assert(kept(a, p) + kept(b, p) =~= kept(b, p));
    } else {
        lemma_kept_concat(a.drop_first(), b, p);
        assert((a + b).drop_first() =~= a.drop_first() + b);
        assert((a + b)[0] == a[0]);
        assert((seq![a[0]] + kept(a.drop_first(), p)) + kept(b, p) =~= seq![a[0]] + (kept(
            a.drop_first(),
            p,
        ) + kept(b, p)));
    }
}

/// The first axis varies slowest: two runs of heads one after the other.
pub proof fn lemma_crossed_concat(a: Seq<TupleV>, b: Seq<TupleV>, tails: Seq<TupleV>)
    ensures
        crossed(a + b, tails) == crossed(a, tails) + crossed(b, tails),
    decreases a.len(),
{
    if a.len() == 0 {
        assert(a + b =~= b);
        assert(crossed(a, tails) + crossed(b, tails) =~= crossed(b, tails));
    } else {
        lemma_crossed_concat(a.drop_first(), b, tails);
        assert((a + b).drop_first() =~= a.drop_first() + b);
        assert((a + b)[0] == a[0]);
        assert((prefixed(a[0], tails) + crossed(a.drop_first(), tails)) + crossed(b, tails)
            =~= prefixed(a[0], tails) + (crossed(a.drop_first(), tails) + crossed(b, tails)));
    }
}

/// A product has as many tuples as its sides together.
pub proof fn lemma_crossed_len(a: Seq<TupleV>, tails: Seq<TupleV>)
    ensures
        crossed(a, tails).len() == a.len() * tails.len(),
    decreases a.len(),
{
    if a.len() > 0 {
        lemma_crossed_len(a.drop_first(), tails);
        assert(a.len() * tails.len() == tails.len() + (a.len() - 1) * tails.len())
            by (nonlinear_arith);
    }
}

/// The product of the axes' lengths.
pub open spec fn lengths_product(axes: Seq<Seq<TupleV>>) -> nat
    decreases axes.len(),
{
    if axes.len() == 0 {
        1
    } else {
        axes[0].len() * lengths_product(axes.drop_first())
    }
}

/// A product of axes has as many tuples as the product of their lengths.
pub proof fn law_product_len(axes: Seq<Seq<TupleV>>)
    ensures
        product(axes).len() == lengths_product(axes),
    decreases axes.len(),
{
    if axes.len() > 0 {
        law_product_len(axes.drop_first());
        lemma_crossed_len(axes[0], product(axes.drop_first()));
    }
}

/// A union of axes has as many tuples as they have together, and drains
/// them in order.
pub proof fn law_union_drains(axes: Seq<Seq<TupleV>>, k: int, i: int)
    requires
        0 <= k < axes.len(),
        0 <= i < axes[k].len(),
    ensures
        joined(axes.take(k)).len() + i < joined(axes).len(),
        joined(axes)[joined(axes.take(k)).len() + i] == axes[k][i],
    decreases axes.len(),
{
    if k == 0 {
        assert(axes.take(0) =~= Seq::<Seq<TupleV>>::empty());
    } else {
        let rest = axes.drop_first();
        law_union_drains(rest, k - 1, i);
        assert(axes.take(k)[0] == axes[0]);
        assert(axes.take(k).drop_first() =~= rest.take(k - 1));
        assert(rest[k - 1] == axes[k]);
    }
}

/// Every kept tuple meets the condition, and none more is kept than there
/// were.
pub proof fn law_kept_meet(s: Seq<TupleV>, p: Seq<char>)
    ensures
        kept(s, p).len() <= s.len(),
        forall|i: int|
            0 <= i < kept(s, p).len() ==> condition::holds(p, #[trigger] kept(s, p)[i]),
    decreases s.len(),
{
    if s.len() > 0 {
        law_kept_meet(s.drop_first(), p);
        let k = kept(s.drop_first(), p);
        if condition::holds(p, s[0]) {
            assert forall|i: int| 0 <= i < kept(s, p).len() implies condition::holds(
                p,
                #[trigger] kept(s, p)[i],
            ) by {
                if i > 0 {
                    assert(kept(s, p)[i] == k[i - 1]);
                }
            }
        }
    }
}

} // verus!
