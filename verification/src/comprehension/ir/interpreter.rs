//! The interpreter: it builds the streams that a program describes. A
//! stream makes its tuples as they are asked for.
use super::condition;
use super::dispense;
use super::op;
use super::op::{Op, OpV};
use super::program::Program;
use crate::comprehension::eval_source;
use crate::comprehension::metadata::{IndexFn, IndexFnV};
use crate::comprehension::source;
use crate::comprehension::source::{LiteralValue, Source, SourceV};
use crate::comprehension::strategies::dispatch;
use crate::comprehension::strategies::dispatch::Chosen;
use crate::comprehension::strategies::{lattice, EvaluatedInput, Strategy};
use crate::comprehension::strategy::ZipMode;
use crate::comprehension::tuple;
use crate::comprehension::tuple::{Tuple, TupleV, TupleValue};
use vstd::prelude::*;

verus! {

/// A stream of tuples.
pub trait TupleStream {
    /// Whether the stream can go on.
    spec fn ready(&self) -> bool;

    /// The tuples that are still to come.
    spec fn rest(&self) -> Seq<TupleV>;

    /// The next tuple; `None` once there are no more.
    fn advance(&mut self) -> (r: Option<Tuple>)
        requires
            old(self).ready(),
        ensures
            final(self).ready(),
            match r {
                Some(t) => old(self).rest().len() > 0 && t@ == old(self).rest()[0]
                    && final(self).rest() == old(self).rest().drop_first(),
                None => old(self).rest().len() == 0 && final(self).rest().len() == 0,
            },
    ;
}

/// What is known of a stream: the tuples to come, whether its state is
/// valid, and how deep it nests.
#[verifier::ext_equal]
struct Info {
    rest: Seq<TupleV>,
    ok: bool,
    height: nat,
}

/// What asking for a tuple does to a stream.
spec fn moved(a: Info, b: Info, r: Option<Tuple>) -> bool {
    &&& b.ok
    &&& b.height == a.height
    &&& match r {
        Some(t) => a.rest.len() > 0 && t@ == a.rest[0] && b.rest == a.rest.drop_first(),
        None => a.rest.len() == 0 && b.rest.len() == 0,
    }
}

enum Node {
    Clause(ClauseStream),
    Cartesian(CartesianStream),
    Zip(ZipStream),
    Union(UnionStream),
    Filter(FilterStream),
    Streaming(OrderStreamingStream),
    Materialize(OrderMaterializeStream),
}

enum ClauseState {
    LiteralList { values: Vec<LiteralValue>, pos: usize },
    IntRange { current: i64, hi: i64, step: i64 },
    Exhausted,
}

/// The values of a source, each bound to the name.
struct ClauseStream {
    name: String,
    state: ClauseState,
}

/// Every combination of the children's tuples. The first child is asked as
/// its tuples are needed; the others are held.
struct CartesianStream {
    children: Vec<Node>,
    cached: Vec<Vec<Tuple>>,
    current_a0: Option<Tuple>,
    cursors: Vec<usize>,
    initialized: bool,
    done: bool,
}

/// The children side by side. Where the shorter ones repeat, all are held.
struct ZipStream {
    children: Vec<Node>,
    mode: ZipMode,
    cycle_cache: Vec<Vec<Tuple>>,
    cycle_cursor: usize,
    cycle_length: usize,
    initialized: bool,
    done: bool,
}

/// The children one after the other.
struct UnionStream {
    children: Vec<Node>,
    active_idx: usize,
}

/// The tuples for which a condition holds.
struct FilterStream {
    inner: Box<Node>,
    predicate: String,
}

/// The tuples as they come, up to a number.
struct OrderStreamingStream {
    inner: Box<Node>,
    truncation: Option<u64>,
    emitted: u64,
}

/// The tuples in a strategy's order. All are held.
struct OrderMaterializeStream {
    inner: Box<Node>,
    strategy: Chosen,
    truncation: Option<u64>,
    input_index_fn: Option<IndexFn>,
    materialized: Option<Vec<Tuple>>,
    pos: usize,
}

// ---------------------------------------------------------------------
// What is known of each stream
// ---------------------------------------------------------------------

spec fn info(n: Node) -> Info
    decreases n, 0nat,
{
    match n {
        Node::Clause(c) => clause_info(c),
        Node::Cartesian(c) => cartesian_info(c, infos(c.children@)),
        Node::Zip(z) => zip_info(z, infos(z.children@)),
        Node::Union(u) => union_info(u, infos(u.children@)),
        Node::Filter(f) => filter_info(f, info(*f.inner)),
        Node::Streaming(t) => streaming_info(t, info(*t.inner)),
        Node::Materialize(m) => materialize_info(m, info(*m.inner)),
    }
}

spec fn infos(s: Seq<Node>) -> Seq<Info>
    decreases s, s.len(),
{
    if s.len() == 0 {
        Seq::empty()
    } else {
        infos(s.drop_last()).push(info(s.last()))
    }
}

proof fn lemma_infos(s: Seq<Node>)
    ensures
        infos(s).len() == s.len(),
        forall|i: int| 0 <= i < s.len() ==> #[trigger] infos(s)[i] == info(s[i]),
    decreases s.len(),
{
    if s.len() > 0 {
        lemma_infos(s.drop_last());
    }
}

spec fn all_ok(kids: Seq<Info>) -> bool {
    forall|k: int| 0 <= k < kids.len() ==> (#[trigger] kids[k]).ok
}

spec fn rests(kids: Seq<Info>) -> Seq<Seq<TupleV>> {
    Seq::new(kids.len(), |i: int| kids[i].rest)
}

spec fn tallest(kids: Seq<Info>) -> nat
    decreases kids.len(),
{
    if kids.len() == 0 {
        0
    } else if kids.last().height + 1 > tallest(kids.drop_last()) {
        kids.last().height + 1
    } else {
        tallest(kids.drop_last())
    }
}

proof fn lemma_tallest(kids: Seq<Info>, k: int)
    requires
        0 <= k < kids.len(),
    ensures
        kids[k].height < tallest(kids),
    decreases kids.len(),
{
    if k < kids.len() - 1 {
        lemma_tallest(kids.drop_last(), k);
    }
}

proof fn lemma_tallest_same(a: Seq<Info>, b: Seq<Info>)
    requires
        a.len() == b.len(),
        forall|k: int| 0 <= k < a.len() ==> (#[trigger] a[k]).height == b[k].height,
    ensures
        tallest(a) == tallest(b),
    decreases a.len(),
{
    if a.len() > 0 {
        lemma_tallest_same(a.drop_last(), b.drop_last());
        assert(a[a.len() - 1].height == b[b.len() - 1].height);
    }
}

/// The views of held tuples.
spec fn held(c: Seq<Vec<Tuple>>) -> Seq<Seq<TupleV>> {
    Seq::new(c.len(), |i: int| tuple::tuple_views(c[i]@))
}

spec fn clause_info(c: ClauseStream) -> Info {
    match c.state {
        ClauseState::LiteralList { values, pos } => Info {
            rest: dispense::clause_tuples(
                c.name@,
                SourceV::Literal(source::literal_views(values@).skip(pos as int)),
            ),
            ok: pos <= values@.len(),
            height: 0,
        },
        ClauseState::IntRange { current, hi, step } => Info {
            rest: dispense::clause_tuples(c.name@, SourceV::IntRange(current, hi, step)),
            ok: step >= 1 && source::range_fits(current, hi, step),
            height: 0,
        },
        ClauseState::Exhausted => Info { rest: Seq::empty(), ok: true, height: 0 },
    }
}

/// The combinations of held axes from the cursors on.
spec fn onward(axes: Seq<Seq<TupleV>>, cursors: Seq<usize>) -> Seq<TupleV>
    decreases axes.len(),
{
    if axes.len() == 0 {
        seq![Seq::empty()]
    } else {
        let c = cursors[0] as int;
        dispense::prefixed(axes[0][c], onward(axes.drop_first(), cursors.drop_first()))
            + dispense::crossed(axes[0].skip(c + 1), dispense::product(axes.drop_first()))
    }
}

/// Whether each cursor stands on a tuple of its axis.
spec fn cursors_stand(axes: Seq<Seq<TupleV>>, cursors: Seq<usize>) -> bool {
    cursors.len() == axes.len() && forall|k: int|
        0 <= k < axes.len() ==> (#[trigger] cursors[k]) < axes[k].len()
}

spec fn all_zero(cursors: Seq<usize>) -> bool {
    forall|k: int| 0 <= k < cursors.len() ==> #[trigger] cursors[k] == 0
}

spec fn cartesian_info(c: CartesianStream, kids: Seq<Info>) -> Info {
    let axes = held(c.cached@);
    Info {
        rest: if !c.initialized {
            dispense::cartesian(rests(kids))
        } else if c.done || c.current_a0 is None || kids.len() == 0 {
            Seq::empty()
        } else {
            dispense::prefixed(c.current_a0->0@, onward(axes, c.cursors@)) + dispense::crossed(
                kids[0].rest,
                dispense::product(axes),
            )
        },
        ok: {
            &&& all_ok(kids)
            &&& !c.initialized ==> c.cached@.len() == 0 && all_zero(c.cursors@) && !c.done
                && c.cursors@.len() == (if kids.len() == 0 {
                0
            } else {
                kids.len() - 1
            })
            &&& c.initialized && !c.done ==> c.current_a0 is Some && kids.len() > 0
                && cursors_stand(axes, c.cursors@)
        },
        height: tallest(kids),
    }
}

spec fn zip_info(z: ZipStream, kids: Seq<Info>) -> Info {
    let axes = held(z.cycle_cache@);
    Info {
        rest: if z.done {
            Seq::empty()
        } else if z.initialized {
            Seq::new(
                (z.cycle_length - z.cycle_cursor) as nat,
                |i: int| dispense::row(axes, z.cycle_cursor + i),
            )
        } else {
            dispense::zipped(rests(kids), z.mode)
        },
        ok: {
            &&& all_ok(kids)
            &&& kids.len() > 0
            &&& z.initialized ==> dispense::none_empty(axes) && z.cycle_cursor <= z.cycle_length
            &&& z.initialized ==> z.mode is Cycle
        },
        height: tallest(kids),
    }
}

spec fn union_info(u: UnionStream, kids: Seq<Info>) -> Info {
    Info {
        rest: dispense::joined(rests(kids).skip(u.active_idx as int)),
        ok: all_ok(kids) && u.active_idx <= kids.len(),
        height: tallest(kids),
    }
}

spec fn filter_info(f: FilterStream, kid: Info) -> Info {
    Info {
        rest: dispense::kept(kid.rest, f.predicate@),
        ok: kid.ok,
        height: kid.height + 1,
    }
}

spec fn streaming_info(t: OrderStreamingStream, kid: Info) -> Info {
    Info {
        rest: match t.truncation {
            Some(cap) => lattice::prefix_of(
                kid.rest,
                if t.emitted < cap {
                    (cap - t.emitted) as nat
                } else {
                    0
                },
            ),
            None => kid.rest,
        },
        ok: kid.ok,
        height: kid.height + 1,
    }
}

spec fn index_view(idx: Option<IndexFn>) -> Option<IndexFnV> {
    match idx {
        Some(i) => Some(i@),
        None => None,
    }
}

spec fn materialize_info(m: OrderMaterializeStream, kid: Info) -> Info {
    Info {
        rest: match m.materialized {
            Some(buf) => tuple::tuple_views(buf@).skip(m.pos as int),
            None => m.strategy.ordered(
                kid.rest,
                dispense::addressed(index_view(m.input_index_fn), kid.rest.len()),
                m.truncation,
            ),
        },
        ok: {
            &&& kid.ok
            &&& index_view(m.input_index_fn) matches Some(i) ==> m.strategy.within_limits(i)
            &&& m.materialized matches Some(buf) ==> m.pos <= buf@.len()
            &&& m.materialized is None ==> m.pos == 0
        },
        height: kid.height + 1,
    }
}

// ---------------------------------------------------------------------
// Asking for a tuple
// ---------------------------------------------------------------------

impl Node {
    fn advance(&mut self) -> (r: Option<Tuple>)
        requires
            info(*old(self)).ok,
        ensures
            moved(info(*old(self)), info(*final(self)), r),
        decreases info(*old(self)).height, 2nat,
    {
        match self {
            Node::Clause(c) => c.advance(),
            Node::Cartesian(c) => c.advance(),
            Node::Zip(z) => z.advance(),
            Node::Union(u) => u.advance(),
            Node::Filter(f) => f.advance(),
            Node::Streaming(t) => t.advance(),
            Node::Materialize(m) => m.advance(),
        }
    }

    /// All the tuples that are still to come.
    fn drain(&mut self) -> (r: Vec<Tuple>)
        requires
            info(*old(self)).ok,
        ensures
            tuple::tuple_views(r@) == info(*old(self)).rest,
            info(*final(self)).ok,
            info(*final(self)).height == info(*old(self)).height,
            info(*final(self)).rest.len() == 0,
        decreases info(*old(self)).height, 3nat,
    {
        let mut out: Vec<Tuple> = Vec::new();
        let ghost all = info(*self).rest;
        let mut more: bool = true;
        assert(tuple::tuple_views(out@) + info(*self).rest =~= all);
        while more
            invariant
                info(*self).ok,
                info(*self).height == info(*old(self)).height,
                tuple::tuple_views(out@) + info(*self).rest == all,
                !more ==> info(*self).rest.len() == 0,
            decreases info(*self).rest.len() + (if more { 1nat } else { 0nat }),
        {
            let ghost before = info(*self);
            match self.advance() {
                Some(t) => {
                    let ghost had = out@;
                    let ghost tv = t@;
                    out.push(t);
                    proof {
                        assert(tuple::tuple_views(out@) =~= tuple::tuple_views(had).push(tv));
                        assert(before.rest =~= seq![tv] + info(*self).rest);
                        assert(tuple::tuple_views(had) + (seq![tv] + info(*self).rest)
                            =~= tuple::tuple_views(out@) + info(*self).rest);
                    }
                },
                None => {
                    assert(info(*self).rest =~= before.rest);
                    more = false;
                },
            }
        }
        assert(tuple::tuple_views(out@) =~= all);
        out
    }
}

impl ClauseStream {
    fn advance(&mut self) -> (r: Option<Tuple>)
        requires
            clause_info(*old(self)).ok,
        ensures
            moved(clause_info(*old(self)), clause_info(*final(self)), r),
    {
        let ghost before = *self;
        let value: TupleValue = match &mut self.state {
            ClauseState::LiteralList { values, pos } => {
                if *pos >= values.len() {
                    return None;
                }
                let v: TupleValue = condition::literal_to_tuple_value(&values[*pos]);
                *pos = *pos + 1;
                v
            },
            ClauseState::IntRange { current, hi, step } => {
                if *current >= *hi {
                    return None;
                }
                let v: TupleValue = TupleValue::I64(*current);
                proof {
                    lemma_range_step(*current, *hi, *step);
                }
                *current = *current + *step;
                v
            },
            ClauseState::Exhausted => return None,
        };
        let ghost vv = value@;
        let t: Tuple = Tuple::new().with(self.name.as_str(), value);
        proof {
            assert(t@ =~= seq![(self.name@, vv)]);
            match before.state {
                ClauseState::LiteralList { values, pos } => {
                    assert(clause_info(*self).rest =~= clause_info(before).rest.drop_first());
                    assert(clause_info(before).rest[0] =~= t@);
                },
                ClauseState::IntRange { current, hi, step } => {
                    lemma_range_step(current, hi, step);
                    assert(clause_info(*self).rest =~= clause_info(before).rest.drop_first());
                    assert(clause_info(before).rest[0] =~= t@);
                },
                ClauseState::Exhausted => {},
            }
        }
        Some(t)
    }
}

/// A range without its first value is the range from the next one.
proof fn lemma_range_step(lo: i64, hi: i64, step: i64)
    requires
        lo < hi,
        step >= 1,
        source::range_fits(lo, hi, step),
    ensures
        lo + step <= i64::MAX,
        source::range_len(lo, hi, step) == source::range_len((lo + step) as i64, hi, step) + 1,
        source::range_fits((lo + step) as i64, hi, step),
        source::range_values(lo, hi, step)[0] == lo,
        source::range_values((lo + step) as i64, hi, step) == source::range_values(
            lo,
            hi,
            step,
        ).drop_first(),
{
    let n = source::range_len(lo, hi, step) as int;
    let span = hi - lo;
    let by = step as int;
    assert(n >= 1 && n * by >= by && (n - 1) * by == n * by - by) by (nonlinear_arith)
        requires
            n == (span + by - 1) / by,
            span >= 1,
            by >= 1,
    ;
    let next = (lo + step) as i64;
    assert(source::range_len(next, hi, step) == n - 1) by {
        if hi <= next {
            assert(n == 1) by (nonlinear_arith)
                requires
                    n == (span + by - 1) / by,
                    1 <= span <= by,
            ;
        } else {
            assert((span - by + by - 1) / by == (span + by - 1) / by - 1) by (nonlinear_arith)
                requires
                    by >= 1,
            ;
        }
    }
    assert forall|i: int| 0 <= i < n - 1 implies source::range_values(next, hi, step)[i]
        == source::range_values(lo, hi, step)[i + 1] by {
        assert((i + 1) * by == i * by + by) by (nonlinear_arith);
    }
    assert(0 * by == 0);
    assert(source::range_values(next, hi, step) =~= source::range_values(
        lo,
        hi,
        step,
    ).drop_first());
}

impl UnionStream {
    fn advance(&mut self) -> (r: Option<Tuple>)
        requires
            union_info(*old(self), infos(old(self).children@)).ok,
        ensures
            moved(
                union_info(*old(self), infos(old(self).children@)),
                union_info(*final(self), infos(final(self).children@)),
                r,
            ),
        decreases tallest(infos(old(self).children@)), 0nat,
    {
        let ghost start = *self;
        let ghost goal = union_info(*self, infos(self.children@)).rest;
        proof {
            lemma_infos(self.children@);
        }
        while self.active_idx < self.children.len()
            invariant
                union_info(*self, infos(self.children@)).ok,
                union_info(*self, infos(self.children@)).rest == goal,
                goal == union_info(*old(self), infos(old(self).children@)).rest,
                tallest(infos(self.children@)) == tallest(infos(start.children@)),
                start == *old(self),
                self.children@.len() == infos(self.children@).len(),
            decreases self.children.len() - self.active_idx,
        {
            let ghost kids = infos(self.children@);
            let ghost before = self.children@;
            let i: usize = self.active_idx;
            proof {
                lemma_infos(self.children@);
                lemma_tallest(kids, i as int);
                assert(rests(kids).skip(i as int)[0] == kids[i as int].rest);
                assert(rests(kids).skip(i as int).drop_first() =~= rests(kids).skip(i + 1));
            }
            let got: Option<Tuple> = self.children[i].advance();
            let ghost after = infos(self.children@);
            proof {
                lemma_infos(self.children@);
                assert(forall|k: int| 0 <= k < before.len() && k != i ==> self.children@[k]
                    == before[k]);
                assert(forall|k: int| 0 <= k < before.len() && k != i ==> after[k] == kids[k]);
                lemma_tallest_same(kids, after);
                assert(rests(after).skip(i + 1) =~= rests(kids).skip(i + 1));
                assert(rests(after).skip(i as int)[0] == after[i as int].rest);
                assert(rests(after).skip(i as int).drop_first() =~= rests(after).skip(i + 1));
            }
            match got {
                Some(t) => {
                    let ghost tail = dispense::joined(rests(kids).skip(i + 1));
                    assert((kids[i as int].rest + tail).drop_first()
                        =~= kids[i as int].rest.drop_first() + tail);
                    return Some(t);
                },
                None => {
                    assert(kids[i as int].rest + dispense::joined(rests(kids).skip(i + 1))
                        =~= dispense::joined(rests(kids).skip(i + 1)));
                },
            }
            self.active_idx = i + 1;
        }
        assert(rests(infos(self.children@)).skip(self.active_idx as int).len() == 0);
        None
    }
}

impl FilterStream {
    fn advance(&mut self) -> (r: Option<Tuple>)
        requires
            info(*old(self).inner).ok,
        ensures
            moved(
                filter_info(*old(self), info(*old(self).inner)),
                filter_info(*final(self), info(*final(self).inner)),
                r,
            ),
        decreases info(*old(self).inner).height + 1, 0nat,
    {
        let ghost goal = dispense::kept(info(*self.inner).rest, self.predicate@);
        loop
            invariant
                info(*self.inner).ok,
                info(*self.inner).height == info(*old(self).inner).height,
                self.predicate@ == old(self).predicate@,
                dispense::kept(info(*self.inner).rest, self.predicate@) == goal,
                goal == dispense::kept(info(*old(self).inner).rest, old(self).predicate@),
            decreases info(*self.inner).rest.len(),
        {
            let ghost before = info(*self.inner);
            let got: Option<Tuple> = self.inner.advance();
            match got {
                None => {
                    assert(info(*self.inner).rest =~= before.rest);
                    return None;
                },
                Some(t) => {
                    if condition::evaluate_predicate(self.predicate.as_str(), &t) {
                        assert(goal.drop_first() =~= dispense::kept(
                            info(*self.inner).rest,
                            self.predicate@,
                        ));
                        return Some(t);
                    }
                },
            }
        }
    }
}

impl OrderStreamingStream {
    fn advance(&mut self) -> (r: Option<Tuple>)
        requires
            info(*old(self).inner).ok,
        ensures
            moved(
                streaming_info(*old(self), info(*old(self).inner)),
                streaming_info(*final(self), info(*final(self).inner)),
                r,
            ),
        decreases info(*old(self).inner).height + 1, 0nat,
    {
        let ghost before = *self;
        if let Some(cap) = self.truncation {
            if self.emitted >= cap {
                return None;
            }
        }
        let got: Option<Tuple> = self.inner.advance();
        if got.is_some() {
            self.emitted = self.emitted.saturating_add(1);
        }
        proof {
            if got is Some {
                assert(streaming_info(*self, info(*self.inner)).rest =~= streaming_info(
                    before,
                    info(*before.inner),
                ).rest.drop_first());
            }
        }
        got
    }
}

impl OrderMaterializeStream {
    fn materialize(&mut self) -> (buf: Vec<Tuple>)
        requires
            materialize_info(*old(self), info(*old(self).inner)).ok,
            old(self).materialized is None,
        ensures
            tuple::tuple_views(buf@) == materialize_info(
                *old(self),
                info(*old(self).inner),
            ).rest,
            info(*final(self).inner).ok,
            info(*final(self).inner).height == info(*old(self).inner).height,
            final(self).strategy == old(self).strategy,
            final(self).input_index_fn == old(self).input_index_fn,
            final(self).truncation == old(self).truncation,
        decreases info(*old(self).inner).height + 1, 0nat,
    {
        let tuples: Vec<Tuple> = self.inner.drain();
        let cardinality: u64 = tuples.len() as u64;
        let index_fn: IndexFn = match &self.input_index_fn {
            Some(i) => i.copy(),
            None => IndexFn::Lattice { axis_sizes: vec![cardinality] },
        };
        proof {
            dispatch::lemma_single_axis(self.strategy, cardinality);
            assert(tuple::tuple_views(tuples@).len() == tuples@.len());
            assert(index_fn@ =~= dispense::addressed(
                index_view(self.input_index_fn),
                tuples@.len(),
            ));
        }
        let input: EvaluatedInput = EvaluatedInput { tuples, cardinality, index_fn };
        self.strategy.apply(&input, self.truncation)
    }

    fn advance(&mut self) -> (r: Option<Tuple>)
        requires
            materialize_info(*old(self), info(*old(self).inner)).ok,
        ensures
            moved(
                materialize_info(*old(self), info(*old(self).inner)),
                materialize_info(*final(self), info(*final(self).inner)),
                r,
            ),
        decreases info(*old(self).inner).height + 1, 1nat,
    {
        let ghost goal = materialize_info(*self, info(*self.inner)).rest;
        if self.materialized.is_none() {
            let buf: Vec<Tuple> = self.materialize();
            assert(tuple::tuple_views(buf@).skip(0) =~= tuple::tuple_views(buf@));
            self.materialized = Some(buf);
            self.pos = 0;
        }
        assert(materialize_info(*self, info(*self.inner)).rest == goal);
        let got: Option<Tuple> = match &self.materialized {
            Some(buf) => {
                if self.pos >= buf.len() {
                    None
                } else {
                    assert(goal[0] == buf@[self.pos as int]@);
                    Some(buf[self.pos].clone())
                }
            },
            None => None,
        };
        if got.is_some() {
            self.pos = self.pos + 1;
            assert(materialize_info(*self, info(*self.inner)).rest =~= goal.drop_first());
        }
        got
    }
}

// ---------------------------------------------------------------------
// Combinations
// ---------------------------------------------------------------------

/// A tuple in front of a run, without its first tuple.
proof fn lemma_prefixed_rest(head: TupleV, tails: Seq<TupleV>)
    requires
        tails.len() > 0,
    ensures
        dispense::prefixed(head, tails).drop_first() == dispense::prefixed(
            head,
            tails.drop_first(),
        ),
{
    assert(dispense::prefixed(head, tails).drop_first() =~= dispense::prefixed(
        head,
        tails.drop_first(),
    ));
}

/// The tuples that the cursors stand on, joined.
spec fn pointed(axes: Seq<Seq<TupleV>>, cursors: Seq<usize>) -> TupleV
    decreases axes.len(),
{
    if axes.len() == 0 {
        Seq::empty()
    } else {
        pointed(axes.drop_last(), cursors.drop_last()) + axes.last()[cursors.last() as int]
    }
}

/// The same, taken from the front.
proof fn lemma_pointed_front(axes: Seq<Seq<TupleV>>, cursors: Seq<usize>)
    requires
        axes.len() > 0,
        axes.len() == cursors.len(),
    ensures
        pointed(axes, cursors) == axes[0][cursors[0] as int] + pointed(
            axes.drop_first(),
            cursors.drop_first(),
        ),
    decreases axes.len(),
{
    let head = axes[0][cursors[0] as int];
    if axes.len() == 1 {
        assert(axes.drop_last() =~= Seq::<Seq<TupleV>>::empty());
        assert(axes.drop_first() =~= Seq::<Seq<TupleV>>::empty());
        assert(pointed(axes.drop_last(), cursors.drop_last()) =~= Seq::empty());
        assert(pointed(axes.drop_first(), cursors.drop_first()) =~= Seq::empty());
        assert(pointed(axes, cursors) =~= head + pointed(
            axes.drop_first(),
            cursors.drop_first(),
        ));
    } else {
        lemma_pointed_front(axes.drop_last(), cursors.drop_last());
        assert(axes.drop_last().drop_first() =~= axes.drop_first().drop_last());
        assert(cursors.drop_last().drop_first() =~= cursors.drop_first().drop_last());
        let mid = pointed(axes.drop_first().drop_last(), cursors.drop_first().drop_last());
        assert((head + mid) + axes.last()[cursors.last() as int] =~= head + (mid
            + axes.last()[cursors.last() as int]));
    }
}

/// The first combination from the cursors on is the one they point at.
proof fn lemma_onward_first(axes: Seq<Seq<TupleV>>, cursors: Seq<usize>)
    requires
        axes.len() == cursors.len(),
    ensures
        onward(axes, cursors).len() > 0,
        onward(axes, cursors)[0] == pointed(axes, cursors),
    decreases axes.len(),
{
    if axes.len() > 0 {
        lemma_onward_first(axes.drop_first(), cursors.drop_first());
        lemma_pointed_front(axes, cursors);
    }
}

/// From the start on there are all the combinations.
proof fn lemma_onward_start(axes: Seq<Seq<TupleV>>, cursors: Seq<usize>)
    requires
        dispense::none_empty(axes),
        axes.len() == cursors.len(),
        all_zero(cursors),
    ensures
        onward(axes, cursors) == dispense::product(axes),
    decreases axes.len(),
{
    if axes.len() > 0 {
        assert(cursors[0] == 0);
        assert(axes[0].len() > 0);
        assert forall|k: int| 0 <= k < axes.drop_first().len() implies (
        #[trigger] axes.drop_first()[k]).len() > 0 by {
            assert(axes[k + 1].len() > 0);
        }
        assert forall|k: int| 0 <= k < cursors.drop_first().len() implies
            #[trigger] cursors.drop_first()[k] == 0 by {
            assert(cursors[k + 1] == 0);
        }
        lemma_onward_start(axes.drop_first(), cursors.drop_first());
        assert(axes[0].skip(1) =~= axes[0].drop_first());
    }
}

/// Where the cursors agree up to `j` and moving on from `j` on takes one
/// set of cursors to the other, moving on takes the whole set there.
proof fn lemma_onward_prefix(
    axes: Seq<Seq<TupleV>>,
    from: Seq<usize>,
    to: Seq<usize>,
    j: int,
)
    requires
        0 <= j <= axes.len(),
        axes.len() == from.len(),
        axes.len() == to.len(),
        forall|k: int| 0 <= k < j ==> #[trigger] from[k] == to[k],
        onward(axes.skip(j), from.skip(j)).drop_first() == onward(axes.skip(j), to.skip(j)),
        onward(axes.skip(j), from.skip(j)).len() > 0,
    ensures
        onward(axes, from).drop_first() == onward(axes, to),
    decreases j,
{
    if j == 0 {
        assert(axes.skip(0) =~= axes);
        assert(from.skip(0) =~= from);
        assert(to.skip(0) =~= to);
    } else {
        let a = axes.skip(j - 1);
        let f = from.skip(j - 1);
        let t = to.skip(j - 1);
        assert(a.drop_first() =~= axes.skip(j));
        assert(f.drop_first() =~= from.skip(j));
        assert(t.drop_first() =~= to.skip(j));
        assert(from[j - 1] == to[j - 1]);
        let inner = onward(axes.skip(j), from.skip(j));
        lemma_prefixed_rest(a[0][f[0] as int], inner);
        let tail = dispense::crossed(
            a[0].skip(f[0] + 1),
            dispense::product(a.drop_first()),
        );
        let front = dispense::prefixed(a[0][f[0] as int], inner);
        assert((front + tail).drop_first() =~= front.drop_first() + tail);
        lemma_onward_prefix(axes, from, to, j - 1);
    }
}

/// No combination where an axis is empty.
proof fn lemma_product_empty(axes: Seq<Seq<TupleV>>, k: int)
    requires
        0 <= k < axes.len(),
        axes[k].len() == 0,
    ensures
        dispense::product(axes).len() == 0,
    decreases axes.len(),
{
    if k > 0 {
        lemma_product_empty(axes.drop_first(), k - 1);
    }
    dispense::lemma_crossed_len(axes[0], dispense::product(axes.drop_first()));
    assert(axes[0].len() * 0 == 0);
    assert(0 * dispense::product(axes.drop_first()).len() == 0);
}

/// Move `cursors` to the next combination; whether they went round to the
/// start.
fn move_cursors(cursors: &mut Vec<usize>, cached: &Vec<Vec<Tuple>>) -> (overflow: bool)
    requires
        cursors_stand(held(cached@), old(cursors)@),
    ensures
        cursors_stand(held(cached@), final(cursors)@),
        !overflow ==> onward(held(cached@), old(cursors)@).drop_first() == onward(
            held(cached@),
            final(cursors)@,
        ),
        overflow ==> onward(held(cached@), old(cursors)@).len() == 1 && all_zero(final(cursors)@),
{
    let ghost axes = held(cached@);
    let ghost from = cursors@;
    let mut i: usize = cursors.len();
    assert(axes.skip(i as int) =~= Seq::<Seq<TupleV>>::empty());
    while i > 0
        invariant
            i <= axes.len(),
            axes == held(cached@),
            from == old(cursors)@,
            cursors_stand(axes, from),
            cursors@.len() == axes.len(),
            forall|k: int| 0 <= k < i ==> #[trigger] cursors@[k] == from[k],
            forall|k: int| i <= k < axes.len() ==> #[trigger] cursors@[k] == 0,
            onward(axes.skip(i as int), from.skip(i as int)).len() == 1,
        decreases i,
    {
        let j: usize = i - 1;
        let ghost a = axes.skip(j as int);
        let ghost f = from.skip(j as int);
        proof {
            assert(a.drop_first() =~= axes.skip(i as int));
            assert(f.drop_first() =~= from.skip(i as int));
            assert(cursors@[j as int] == from[j as int]);
            assert(from[j as int] < axes[j as int].len());
            assert(a[0] == axes[j as int]);
        }
        let c: usize = cursors[j];
        let size: usize = cached[j].len();
        assert(axes[j as int].len() == size);
        let ghost product = dispense::product(a.drop_first());
        if c + 1 < size {
            cursors.set(j, c + 1);
            proof {
                let t = cursors@.skip(j as int);
                assert(t.drop_first() =~= cursors@.skip(i as int));
                assert(dispense::none_empty(a.drop_first())) by {
                    assert forall|k: int| 0 <= k < a.drop_first().len() implies (
                    #[trigger] a.drop_first()[k]).len() > 0 by {
                        assert(from[i + k] < axes[i + k].len());
                    }
                }
                assert(all_zero(t.drop_first()));
                lemma_onward_start(a.drop_first(), t.drop_first());
                let one = dispense::prefixed(
                    a[0][c as int],
                    onward(a.drop_first(), f.drop_first()),
                );
                let tail = dispense::crossed(a[0].skip(c + 1), product);
                assert((one + tail).drop_first() =~= tail);
                assert(a[0].skip(c + 1)[0] == a[0][c + 1]);
                assert(a[0].skip(c + 1).drop_first() =~= a[0].skip(c + 2));
                assert(onward(a, f).drop_first() == onward(a, t));
                lemma_onward_prefix(axes, from, cursors@, j as int);
                assert forall|k: int| 0 <= k < axes.len() implies (#[trigger] cursors@[k])
                    < axes[k].len() by {
                    assert(from[k] < axes[k].len());
                }
            }
            return false;
        }
        cursors.set(j, 0);
        proof {
            assert(a[0].skip(c + 1) =~= Seq::<TupleV>::empty());
            assert(onward(a, f) =~= dispense::prefixed(
                a[0][c as int],
                onward(a.drop_first(), f.drop_first()),
            ));
        }
        i = j;
    }
    proof {
        assert(axes.skip(0) =~= axes);
        assert(from.skip(0) =~= from);
        assert forall|k: int| 0 <= k < axes.len() implies (#[trigger] cursors@[k])
            < axes[k].len() by {
            assert(from[k] < axes[k].len());
        }
    }
    true
}

impl CartesianStream {
    fn new(children: Vec<Node>) -> (r: CartesianStream)
        requires
            all_ok(infos(children@)),
        ensures
            cartesian_info(r, infos(children@)) == (Info {
                rest: dispense::cartesian(rests(infos(children@))),
                ok: true,
                height: tallest(infos(children@)),
            }),
            r.children == children,
    {
        let n: usize = children.len();
        let mut cursors: Vec<usize> = Vec::new();
        while cursors.len() + 1 < n
            invariant
                all_zero(cursors@),
                cursors@.len() == 0 || cursors@.len() + 1 <= n,
            decreases n - cursors.len(),
        {
            cursors.push(0);
        }
        proof {
            lemma_infos(children@);
        }
        CartesianStream {
            children,
            cached: Vec::new(),
            current_a0: None,
            cursors,
            initialized: false,
            done: false,
        }
    }

    /// Hold the tuples of every child but the first, and ask that one.
    fn initialize(&mut self)
        requires
            cartesian_info(*old(self), infos(old(self).children@)).ok,
            !old(self).initialized,
        ensures
            final(self).initialized,
            ({
                let a = cartesian_info(*old(self), infos(old(self).children@));
                let b = cartesian_info(*final(self), infos(final(self).children@));
                a == b
            }),
        decreases tallest(infos(old(self).children@)), 0nat,
    {
        let ghost kids = infos(self.children@);
        let ghost all = rests(kids);
        proof {
            lemma_infos(self.children@);
        }
        if self.children.len() == 0 {
            self.done = true;
            self.initialized = true;
            return;
        }
        let mut i: usize = 1;
        let mut any_empty: bool = false;
        assert(held(self.cached@) =~= all.subrange(1, 1));
        while i < self.children.len()
            invariant
                1 <= i <= self.children@.len(),
                kids == infos(old(self).children@),
                all == rests(kids),
                self.children@.len() == kids.len(),
                infos(self.children@).len() == kids.len(),
                all_ok(infos(self.children@)),
                self.cursors@ == old(self).cursors@,
                !self.done,
                forall|k: int|
                    0 <= k < kids.len() ==> (#[trigger] infos(self.children@)[k]).height
                        == kids[k].height,
                forall|k: int|
                    (k == 0 || i <= k) && 0 <= k < kids.len() ==> #[trigger] infos(
                        self.children@,
                    )[k] == kids[k],
                held(self.cached@) == all.subrange(1, i as int),
                any_empty == !dispense::none_empty(all.subrange(1, i as int)),
            decreases self.children.len() - i,
        {
            let ghost before = self.children@;
            let ghost had = self.cached@;
            proof {
                lemma_infos(self.children@);
                lemma_tallest(kids, i as int);
                assert(infos(before)[i as int] == kids[i as int]);
            }
            let v: Vec<Tuple> = self.children[i].drain();
            let ghost vv = tuple::tuple_views(v@);
            let ghost wider = all.subrange(1, i + 1);
            proof {
                lemma_infos(self.children@);
                assert(forall|k: int| 0 <= k < before.len() && k != i ==> self.children@[k]
                    == before[k]);
                assert forall|k: int| 0 <= k < kids.len() && k != i implies #[trigger] infos(
                    self.children@,
                )[k] == infos(before)[k] by {}
                assert(wider =~= all.subrange(1, i as int).push(vv));
                assert(vv.len() == v@.len());
            }
            if v.len() == 0 {
                any_empty = true;
                assert(wider[i - 1].len() == 0);
            } else {
                proof {
                    if !any_empty {
                        assert forall|k: int| 0 <= k < wider.len() implies (
                        #[trigger] wider[k]).len() > 0 by {
                            if k < i - 1 {
                                assert(all.subrange(1, i as int)[k].len() > 0);
                            }
                        }
                    } else {
                        let k = choose|k: int|
                            0 <= k < all.subrange(1, i as int).len() && !((
                            #[trigger] all.subrange(1, i as int)[k]).len() > 0);
                        assert(wider[k] == all.subrange(1, i as int)[k]);
                        assert(!(wider[k].len() > 0));
                    }
                }
            }
            self.cached.push(v);
            assert(held(self.cached@) =~= held(had).push(vv));
            i = i + 1;
        }
        let ghost before = self.children@;
        let ghost axes = held(self.cached@);
        proof {
            lemma_infos(self.children@);
            lemma_tallest(kids, 0);
            assert(infos(before)[0] == kids[0]);
            assert(axes =~= all.drop_first());
        }
        let a0: Option<Tuple> = self.children[0].advance();
        let ghost after = infos(self.children@);
        proof {
            lemma_infos(self.children@);
            assert(forall|k: int| 0 < k < before.len() ==> self.children@[k] == before[k]);
            assert forall|k: int| 0 <= k < kids.len() implies (#[trigger] after[k]).height
                == kids[k].height by {
                if k > 0 {
                    assert(after[k] == infos(before)[k]);
                }
            }
            lemma_tallest_same(after, kids);
            assert forall|k: int| 0 <= k < after.len() implies (#[trigger] after[k]).ok by {
                if k > 0 {
                    assert(after[k] == infos(before)[k]);
                }
            }
        }
        if a0.is_none() || any_empty {
            self.done = true;
            proof {
                if any_empty {
                    let k = choose|k: int| 0 <= k < axes.len() && !((#[trigger] axes[k]).len() > 0);
                    lemma_product_empty(axes, k);
                    dispense::lemma_crossed_len(all[0], dispense::product(axes));
                    assert(all[0].len() * 0 == 0);
                } else {
                    assert(all[0] =~= Seq::<TupleV>::empty());
                }
                assert(dispense::cartesian(all) =~= Seq::<TupleV>::empty());
            }
        } else {
            proof {
                lemma_onward_start(axes, self.cursors@);
                assert(dispense::none_empty(axes));
                assert(cursors_stand(axes, self.cursors@)) by {
                    assert forall|k: int| 0 <= k < axes.len() implies (
                    #[trigger] self.cursors@[k]) < axes[k].len() by {
                        assert(axes[k].len() > 0);
                    }
                }
            }
        }
        self.current_a0 = a0;
        self.initialized = true;
    }

    fn advance(&mut self) -> (r: Option<Tuple>)
        requires
            cartesian_info(*old(self), infos(old(self).children@)).ok,
        ensures
            moved(
                cartesian_info(*old(self), infos(old(self).children@)),
                cartesian_info(*final(self), infos(final(self).children@)),
                r,
            ),
        decreases tallest(infos(old(self).children@)), 1nat,
    {
        let ghost goal = cartesian_info(*self, infos(self.children@));
        if !self.initialized {
            self.initialize();
        }
        assert(cartesian_info(*self, infos(self.children@)) == goal);
        if self.done {
            return None;
        }
        let ghost start = *self;
        let ghost axes = held(self.cached@);
        let ghost kids = infos(self.children@);
        let ghost product = dispense::product(axes);
        proof {
            lemma_infos(self.children@);
            lemma_onward_first(axes, self.cursors@);
        }
        let mut out: Tuple = match &self.current_a0 {
            Some(a0) => a0.clone(),
            None => Tuple::new(),
        };
        let ghost head = out@;
        let mut i: usize = 0;
        assert(axes.take(0) =~= Seq::<Seq<TupleV>>::empty());
        assert(out@ =~= head + pointed(axes.take(0), self.cursors@.take(0)));
        while i < self.cursors.len()
            invariant
                i <= self.cursors@.len(),
                *self == start,
                axes == held(self.cached@),
                cursors_stand(axes, self.cursors@),
                out@ == head + pointed(axes.take(i as int), self.cursors@.take(i as int)),
            decreases self.cursors.len() - i,
        {
            let c: usize = self.cursors[i];
            proof {
                assert(self.cursors@[i as int] < axes[i as int].len());
                assert(axes.take(i + 1).drop_last() =~= axes.take(i as int));
                assert(self.cursors@.take(i + 1).drop_last() =~= self.cursors@.take(i as int));
            }
            let ghost before = out@;
            out.extend(&self.cached[i][c]);
            proof {
                assert(out@ == before + axes[i as int][c as int]);
                assert(out@ =~= head + pointed(axes.take(i + 1), self.cursors@.take(i + 1)));
            }
            i = i + 1;
        }
        proof {
            assert(axes.take(i as int) =~= axes);
            assert(self.cursors@.take(i as int) =~= self.cursors@);
        }
        let ghost from = self.cursors@;
        let ghost first = dispense::prefixed(head, onward(axes, from));
        let ghost tail = dispense::crossed(kids[0].rest, product);
        let overflow: bool = move_cursors(&mut self.cursors, &self.cached);
        proof {
            assert(goal.rest == first + tail);
            assert(goal.rest[0] == out@);
            assert((first + tail).drop_first() =~= first.drop_first() + tail);
            lemma_prefixed_rest(head, onward(axes, from));
        }
        if overflow {
            let ghost before = self.children@;
            proof {
                lemma_tallest(kids, 0);
            }
            let next: Option<Tuple> = self.children[0].advance();
            let ghost after = infos(self.children@);
            proof {
                lemma_infos(self.children@);
                assert(forall|k: int| 0 < k < before.len() ==> self.children@[k] == before[k]);
                assert forall|k: int| 0 <= k < kids.len() implies (#[trigger] after[k]).height
                    == kids[k].height && after[k].ok by {
                    if k > 0 {
                        assert(after[k] == kids[k]);
                    }
                }
                lemma_tallest_same(after, kids);
                assert(first.drop_first() =~= Seq::<TupleV>::empty());
                assert(first.drop_first() + tail =~= tail);
                assert(dispense::none_empty(axes)) by {
                    assert forall|k: int| 0 <= k < axes.len() implies (#[trigger] axes[k]).len()
                        > 0 by {
                        assert(from[k] < axes[k].len());
                    }
                }
                lemma_onward_start(axes, self.cursors@);
            }
            if next.is_none() {
                self.done = true;
                assert(kids[0].rest =~= Seq::<TupleV>::empty());
            }
            self.current_a0 = next;
        }
        Some(out)
    }
}

// ---------------------------------------------------------------------
// Side by side
// ---------------------------------------------------------------------

/// The shortest axis is no longer than any, and as long as one.
proof fn lemma_shortest(axes: Seq<Seq<TupleV>>)
    ensures
        forall|k: int| 0 <= k < axes.len() ==> dispense::shortest(axes) <= (#[trigger] axes[k]).len(),
        axes.len() > 0 ==> exists|k: int|
            0 <= k < axes.len() && (#[trigger] axes[k]).len() == dispense::shortest(axes),
    decreases axes.len(),
{
    if axes.len() > 1 {
        let front = axes.drop_last();
        lemma_shortest(front);
        if axes.last().len() < dispense::shortest(front) {
            assert(axes[axes.len() - 1].len() == dispense::shortest(axes));
        } else {
            let k = choose|k: int|
                0 <= k < front.len() && (#[trigger] front[k]).len() == dispense::shortest(front);
            assert(axes[k].len() == dispense::shortest(axes));
        }
        assert forall|k: int| 0 <= k < axes.len() implies dispense::shortest(axes) <= (
        #[trigger] axes[k]).len() by {
            if k < axes.len() - 1 {
                assert(front[k] == axes[k]);
            }
        }
    } else if axes.len() == 1 {
        assert(axes[0].len() == dispense::shortest(axes));
    }
}

/// The longest axis is no shorter than any.
proof fn lemma_longest(axes: Seq<Seq<TupleV>>)
    ensures
        forall|k: int| 0 <= k < axes.len() ==> dispense::longest(axes) >= (#[trigger] axes[k]).len(),
    decreases axes.len(),
{
    if axes.len() > 0 {
        let front = axes.drop_last();
        lemma_longest(front);
        assert forall|k: int| 0 <= k < axes.len() implies dispense::longest(axes) >= (
        #[trigger] axes[k]).len() by {
            if k < axes.len() - 1 {
                assert(front[k] == axes[k]);
            }
        }
    }
}

/// A row of axes whose first tuples are gone is the next row.
proof fn lemma_row_next(a: Seq<Seq<TupleV>>, b: Seq<Seq<TupleV>>, i: int)
    requires
        a.len() == b.len(),
        0 <= i,
        forall|k: int| 0 <= k < a.len() ==> i + 1 < (#[trigger] a[k]).len(),
        forall|k: int| 0 <= k < a.len() ==> #[trigger] b[k] == a[k].drop_first(),
    ensures
        dispense::row(b, i) == dispense::row(a, i + 1),
    decreases a.len(),
{
    if a.len() > 0 {
        let x = a.drop_last();
        let y = b.drop_last();
        assert forall|k: int| 0 <= k < x.len() implies i + 1 < (#[trigger] x[k]).len() by {
            assert(x[k] == a[k]);
        }
        assert forall|k: int| 0 <= k < x.len() implies #[trigger] y[k] == x[k].drop_first() by {
            assert(y[k] == b[k]);
        }
        lemma_row_next(x, y, i);
        let last = a[a.len() - 1];
        assert(b[b.len() - 1] == last.drop_first());
        vstd::arithmetic::div_mod::lemma_small_mod((i + 1) as nat, last.len());
        vstd::arithmetic::div_mod::lemma_small_mod(i as nat, (last.len() - 1) as nat);
    }
}

impl ZipStream {
    fn new(children: Vec<Node>, mode: ZipMode) -> (r: ZipStream)
        requires
            all_ok(infos(children@)),
            children@.len() > 0,
        ensures
            zip_info(r, infos(children@)) == (Info {
                rest: dispense::zipped(rests(infos(children@)), mode),
                ok: true,
                height: tallest(infos(children@)),
            }),
            r.children == children,
    {
        proof {
            lemma_infos(children@);
        }
        ZipStream {
            children,
            mode,
            cycle_cache: Vec::new(),
            cycle_cursor: 0,
            cycle_length: 0,
            initialized: false,
            done: false,
        }
    }

    /// Hold the tuples of every child; whether each has any.
    fn initialize_cycle(&mut self) -> (all_full: bool)
        requires
            all_ok(infos(old(self).children@)),
        ensures
            all_ok(infos(final(self).children@)),
            tallest(infos(final(self).children@)) == tallest(infos(old(self).children@)),
            infos(final(self).children@).len() == infos(old(self).children@).len(),
            held(final(self).cycle_cache@) == rests(infos(old(self).children@)),
            all_full == dispense::none_empty(held(final(self).cycle_cache@)),
            final(self).cycle_length == dispense::longest(held(final(self).cycle_cache@)),
            final(self).mode == old(self).mode,
            final(self).initialized == old(self).initialized,
            final(self).done == old(self).done,
            final(self).cycle_cursor == old(self).cycle_cursor,
        decreases tallest(infos(old(self).children@)), 0nat,
    {
        let ghost kids = infos(self.children@);
        let ghost all = rests(kids);
        proof {
            lemma_infos(self.children@);
        }
        let mut cache: Vec<Vec<Tuple>> = Vec::new();
        let mut length: usize = 0;
        let mut all_full: bool = true;
        let mut i: usize = 0;
        assert(held(cache@) =~= all.take(0));
        while i < self.children.len()
            invariant
                i <= self.children@.len(),
                kids == infos(old(self).children@),
                all == rests(kids),
                self.children@.len() == kids.len(),
                infos(self.children@).len() == kids.len(),
                all_ok(infos(self.children@)),
                self.mode == old(self).mode,
                self.initialized == old(self).initialized,
                self.done == old(self).done,
                self.cycle_cursor == old(self).cycle_cursor,
                forall|k: int|
                    0 <= k < kids.len() ==> (#[trigger] infos(self.children@)[k]).height
                        == kids[k].height,
                forall|k: int|
                    i <= k < kids.len() ==> #[trigger] infos(self.children@)[k] == kids[k],
                held(cache@) == all.take(i as int),
                length == dispense::longest(all.take(i as int)),
                all_full == dispense::none_empty(all.take(i as int)),
            decreases self.children.len() - i,
        {
            let ghost before = self.children@;
            let ghost had = cache@;
            proof {
                lemma_infos(self.children@);
                lemma_tallest(kids, i as int);
                assert(infos(before)[i as int] == kids[i as int]);
            }
            let v: Vec<Tuple> = self.children[i].drain();
            let ghost vv = tuple::tuple_views(v@);
            let ghost wider = all.take(i + 1);
            proof {
                lemma_infos(self.children@);
                assert(forall|k: int| 0 <= k < before.len() && k != i ==> self.children@[k]
                    == before[k]);
                assert forall|k: int| 0 <= k < kids.len() && k != i implies #[trigger] infos(
                    self.children@,
                )[k] == infos(before)[k] by {}
                assert(wider =~= all.take(i as int).push(vv));
                assert(wider.drop_last() =~= all.take(i as int));
                assert(vv.len() == v@.len());
                if all_full && v@.len() > 0 {
                    assert forall|k: int| 0 <= k < wider.len() implies (#[trigger] wider[k]).len()
                        > 0 by {
                        if k < i {
                            assert(all.take(i as int)[k].len() > 0);
                        }
                    }
                } else if v@.len() == 0 {
                    assert(!(wider[i as int].len() > 0));
                } else {
                    let k = choose|k: int|
                        0 <= k < all.take(i as int).len() && !((#[trigger] all.take(
                            i as int,
                        )[k]).len() > 0);
                    assert(!(wider[k].len() > 0));
                }
            }
            if v.len() == 0 {
                all_full = false;
            }
            if v.len() > length {
                length = v.len();
            }
            cache.push(v);
            assert(held(cache@) =~= held(had).push(vv));
            i = i + 1;
        }
        proof {
            assert(all.take(i as int) =~= all);
            lemma_tallest_same(infos(self.children@), kids);
        }
        self.cycle_cache = cache;
        self.cycle_length = length;
        all_full
    }

    /// One tuple of each child, joined.
    fn lockstep(&mut self) -> (r: Option<Tuple>)
        requires
            zip_info(*old(self), infos(old(self).children@)).ok,
            !old(self).done,
            !old(self).initialized,
            !(old(self).mode is Cycle),
        ensures
            moved(
                zip_info(*old(self), infos(old(self).children@)),
                zip_info(*final(self), infos(final(self).children@)),
                r,
            ),
        decreases tallest(infos(old(self).children@)), 0nat,
    {
        let ghost kids = infos(self.children@);
        let ghost all = rests(kids);
        let mut out: Tuple = Tuple::new();
        let mut i: usize = 0;
        proof {
            lemma_infos(self.children@);
            lemma_shortest(all);
            assert(all.take(0) =~= Seq::<Seq<TupleV>>::empty());
        }
        while i < self.children.len()
            invariant
                i <= self.children@.len(),
                kids == infos(old(self).children@),
                all == rests(kids),
                kids.len() > 0,
                self.children@.len() == kids.len(),
                infos(self.children@).len() == kids.len(),
                all_ok(infos(self.children@)),
                self.mode == old(self).mode,
                !(self.mode is Cycle),
                !self.initialized,
                !self.done,
                !old(self).done,
                !old(self).initialized,
                forall|k: int|
                    0 <= k < all.len() ==> dispense::shortest(all) <= (#[trigger] all[k]).len(),
                forall|k: int|
                    0 <= k < kids.len() ==> (#[trigger] infos(self.children@)[k]).height
                        == kids[k].height,
                forall|k: int|
                    i <= k < kids.len() ==> #[trigger] infos(self.children@)[k] == kids[k],
                forall|k: int| 0 <= k < i ==> (#[trigger] kids[k]).rest.len() > 0,
                forall|k: int|
                    0 <= k < i ==> (#[trigger] infos(self.children@)[k]).rest
                        == kids[k].rest.drop_first(),
                out@ == dispense::row(all.take(i as int), 0),
            decreases self.children.len() - i,
        {
            let ghost before = self.children@;
            proof {
                lemma_infos(self.children@);
                lemma_tallest(kids, i as int);
                assert(infos(before)[i as int] == kids[i as int]);
            }
            let got: Option<Tuple> = self.children[i].advance();
            let ghost after = infos(self.children@);
            proof {
                lemma_infos(self.children@);
                assert(forall|k: int| 0 <= k < before.len() && k != i ==> self.children@[k]
                    == before[k]);
                assert forall|k: int| 0 <= k < kids.len() && k != i implies #[trigger] after[k]
                    == infos(before)[k] by {}
            }
            match got {
                Some(t) => {
                    out.extend(&t);
                    proof {
                        assert(all.take(i + 1).drop_last() =~= all.take(i as int));
                        assert(all.take(i + 1).last() == kids[i as int].rest);
                        vstd::arithmetic::div_mod::lemma_small_mod(0, kids[i as int].rest.len());
                    }
                },
                None => {
                    proof {
                        lemma_tallest_same(after, kids);
                        assert(all[i as int].len() == 0);
                        assert(dispense::zipped(all, self.mode).len() == 0);
                    }
                    self.done = true;
                    return None;
                },
            }
            i = i + 1;
        }
        proof {
            let after = infos(self.children@);
            let now = rests(after);
            lemma_tallest_same(after, kids);
            assert(all.take(i as int) =~= all);
            lemma_shortest(all);
            lemma_shortest(now);
            let k = choose|k: int|
                0 <= k < all.len() && (#[trigger] all[k]).len() == dispense::shortest(all);
            assert(kids[k].rest.len() > 0);
            assert(now[k].len() == all[k].len() - 1);
            let j = choose|j: int|
                0 <= j < now.len() && (#[trigger] now[j]).len() == dispense::shortest(now);
            assert(kids[j].rest.len() > 0);
            assert(now[j].len() == all[j].len() - 1);
            assert(dispense::shortest(now) == dispense::shortest(all) - 1);
            assert forall|n: int| 0 <= n < dispense::shortest(now) implies dispense::row(now, n)
                == dispense::row(all, n + 1) by {
                assert forall|m: int| 0 <= m < all.len() implies n + 1 < (
                #[trigger] all[m]).len() by {}
                assert forall|m: int| 0 <= m < all.len() implies #[trigger] now[m]
                    == all[m].drop_first() by {
                    assert(after[m].rest == kids[m].rest.drop_first());
                }
                lemma_row_next(all, now, n);
            }
            assert(dispense::zipped(now, self.mode) =~= dispense::zipped(
                all,
                self.mode,
            ).drop_first());
        }
        Some(out)
    }

    fn advance(&mut self) -> (r: Option<Tuple>)
        requires
            zip_info(*old(self), infos(old(self).children@)).ok,
        ensures
            moved(
                zip_info(*old(self), infos(old(self).children@)),
                zip_info(*final(self), infos(final(self).children@)),
                r,
            ),
        decreases tallest(infos(old(self).children@)), 1nat,
    {
        if self.done {
            return None;
        }
        match self.mode {
            ZipMode::Strict | ZipMode::Truncate => self.lockstep(),
            ZipMode::Cycle => {
                let ghost goal = zip_info(*self, infos(self.children@));
                if !self.initialized {
                    self.cycle_cursor = 0;
                    let all_full: bool = self.initialize_cycle();
                    proof {
                        lemma_infos(self.children@);
                    }
                    if !all_full {
                        self.done = true;
                        return None;
                    }
                    self.initialized = true;
                    assert(zip_info(*self, infos(self.children@)).rest =~= goal.rest);
                }
                assert(zip_info(*self, infos(self.children@)) == goal);
                if self.cycle_cursor >= self.cycle_length {
                    return None;
                }
                let ghost start = *self;
                let ghost axes = held(self.cycle_cache@);
                let mut out: Tuple = Tuple::new();
                let mut i: usize = 0;
                assert(axes.take(0) =~= Seq::<Seq<TupleV>>::empty());
                while i < self.cycle_cache.len()
                    invariant
                        i <= self.cycle_cache@.len(),
                        *self == start,
                        axes == held(self.cycle_cache@),
                        dispense::none_empty(axes),
                        out@ == dispense::row(axes.take(i as int), self.cycle_cursor as int),
                    decreases self.cycle_cache.len() - i,
                {
                    proof {
                        assert(axes[i as int].len() > 0);
                        assert(axes.take(i + 1).drop_last() =~= axes.take(i as int));
                        assert(axes.take(i + 1).last() == axes[i as int]);
                    }
                    let idx: usize = self.cycle_cursor % self.cycle_cache[i].len();
                    out.extend(&self.cycle_cache[i][idx]);
                    i = i + 1;
                }
                assert(axes.take(i as int) =~= axes);
                self.cycle_cursor = self.cycle_cursor + 1;
                proof {
                    assert(goal.rest[0] == out@);
                    assert(zip_info(*self, infos(self.children@)).rest =~= goal.rest.drop_first());
                }
                Some(out)
            },
        }
    }
}

// ---------------------------------------------------------------------
// Interpreting a program
// ---------------------------------------------------------------------

/// The stream that a program describes.
pub struct Stream {
    node: Node,
}

impl TupleStream for Stream {
    closed spec fn ready(&self) -> bool {
        info(self.node).ok
    }

    closed spec fn rest(&self) -> Seq<TupleV> {
        info(self.node).rest
    }

    fn advance(&mut self) -> Option<Tuple> {
        self.node.advance()
    }
}

impl Stream {
    /// All the tuples that are still to come.
    pub fn collect(&mut self) -> (r: Vec<Tuple>)
        requires
            old(self).ready(),
        ensures
            tuple::tuple_views(r@) == old(self).rest(),
            final(self).ready(),
            final(self).rest().len() == 0,
    {
        self.node.drain()
    }
}

/// The streams that a stack holds: the tuples of each.
spec fn stack_rests(stack: Seq<Node>) -> Seq<Seq<TupleV>> {
    rests(infos(stack))
}

/// Take the last `n` streams off the stack.
fn pop_n(stack: &mut Vec<Node>, n: usize) -> (r: Vec<Node>)
    requires
        n <= old(stack)@.len(),
        all_ok(infos(old(stack)@)),
    ensures
        all_ok(infos(final(stack)@)),
        all_ok(infos(r@)),
        r@.len() == n,
        final(stack)@.len() == old(stack)@.len() - n,
        stack_rests(final(stack)@) == stack_rests(old(stack)@).take(old(stack)@.len() - n),
        stack_rests(r@) == stack_rests(old(stack)@).skip(old(stack)@.len() - n),
{
    let split_at: usize = stack.len() - n;
    let ghost before = stack@;
    let r: Vec<Node> = stack.split_off(split_at);
    proof {
        lemma_infos(before);
        lemma_infos(stack@);
        lemma_infos(r@);
        assert forall|k: int| 0 <= k < stack@.len() implies #[trigger] infos(stack@)[k] == infos(
            before,
        )[k] by {
            assert(stack@[k] == before[k]);
        }
        assert forall|k: int| 0 <= k < r@.len() implies #[trigger] infos(r@)[k] == infos(before)[
        split_at + k] by {
            assert(r@[k] == before[split_at + k]);
        }
        assert(stack_rests(stack@) =~= stack_rests(before).take(split_at as int));
        assert(stack_rests(r@) =~= stack_rests(before).skip(split_at as int));
    }
    r
}

/// Put a stream on the stack.
fn put(stack: &mut Vec<Node>, n: Node)
    requires
        all_ok(infos(old(stack)@)),
        info(n).ok,
    ensures
        all_ok(infos(final(stack)@)),
        final(stack)@.len() == old(stack)@.len() + 1,
        stack_rests(final(stack)@) == stack_rests(old(stack)@).push(info(n).rest),
{
    let ghost before = stack@;
    stack.push(n);
    proof {
        lemma_infos(before);
        lemma_infos(stack@);
        assert(stack@.drop_last() =~= before);
        assert(stack_rests(stack@) =~= stack_rests(before).push(info(n).rest));
    }
}

/// The last stream, taken off the stack.
fn pop_one(stack: &mut Vec<Node>) -> (r: Node)
    requires
        old(stack)@.len() >= 1,
        all_ok(infos(old(stack)@)),
    ensures
        all_ok(infos(final(stack)@)),
        info(r).ok,
        final(stack)@.len() == old(stack)@.len() - 1,
        stack_rests(final(stack)@) == stack_rests(old(stack)@).take(old(stack)@.len() - 1),
        info(r).rest == stack_rests(old(stack)@).last(),
{
    let ghost before = stack@;
    let r: Node = stack.pop().unwrap();
    proof {
        lemma_infos(before);
        lemma_infos(stack@);
        assert(infos(before)[before.len() - 1] == info(r));
        assert forall|k: int| 0 <= k < stack@.len() implies #[trigger] infos(stack@)[k] == infos(
            before,
        )[k] by {
            assert(stack@[k] == before[k]);
        }
        assert(stack_rests(stack@) =~= stack_rests(before).take(before.len() - 1));
    }
    r
}

impl ClauseStream {
    fn new(name: &String, from: &Source) -> (r: ClauseStream)
        requires
            eval_source::listable(from@),
        ensures
            clause_info(r).ok,
            clause_info(r).rest == dispense::clause_tuples(name@, from@),
    {
        let state: ClauseState = match from {
            Source::Literal { values } => {
                let copied: Vec<LiteralValue> = source::copy_literals(values);
                assert(source::literal_views(copied@).skip(0) =~= source::literal_views(values@));
                assert(source::literal_views(copied@).len() == copied@.len());
                ClauseState::LiteralList { values: copied, pos: 0 }
            },
            Source::IntRange { lo, hi, step } => {
                let by: i64 = if *step < 1 {
                    1
                } else {
                    *step
                };
                assert(source::range_len(*lo, *hi, by) == source::range_len(*lo, *hi, *step));
                assert(source::range_values(*lo, *hi, by) =~= source::range_values(
                    *lo,
                    *hi,
                    *step,
                ));
                ClauseState::IntRange { current: *lo, hi: *hi, step: by }
            },
            _ => ClauseState::Exhausted,
        };
        let r = ClauseStream { name: name.clone(), state };
        assert(clause_info(r).rest =~= dispense::clause_tuples(name@, from@));
        r
    }
}

/// Carry out one instruction on the stack.
fn interpret_op(stack: &mut Vec<Node>, o: &Op)
    requires
        all_ok(infos(old(stack)@)),
        dispense::runnable_op(o@, old(stack)@.len()),
    ensures
        all_ok(infos(final(stack)@)),
        stack_rests(final(stack)@) == dispense::step(o@, stack_rests(old(stack)@)),
        final(stack)@.len() == stack_rests(final(stack)@).len(),
{
    let ghost before = stack@;
    proof {
        lemma_infos(before);
    }
    match o {
        Op::PushClause { name, source } => {
            put(stack, Node::Clause(ClauseStream::new(name, source)));
        },
        Op::Cartesian { n } => {
            let children: Vec<Node> = pop_n(stack, *n);
            put(stack, Node::Cartesian(CartesianStream::new(children)));
        },
        Op::Zip { n, mode } => {
            let children: Vec<Node> = pop_n(stack, *n);
            put(stack, Node::Zip(ZipStream::new(children, *mode)));
        },
        Op::Union { n } => {
            let children: Vec<Node> = pop_n(stack, *n);
            proof {
                lemma_infos(children@);
                assert(stack_rests(children@).skip(0) =~= stack_rests(children@));
            }
            put(stack, Node::Union(UnionStream { children, active_idx: 0 }));
        },
        Op::Filter { predicate } => {
            let inner: Node = pop_one(stack);
            put(
                stack,
                Node::Filter(FilterStream { inner: Box::new(inner), predicate: predicate.clone() }),
            );
        },
        Op::OrderStreaming { truncation, .. } => {
            let inner: Node = pop_one(stack);
            put(
                stack,
                Node::Streaming(
                    OrderStreamingStream {
                        inner: Box::new(inner),
                        truncation: *truncation,
                        emitted: 0,
                    },
                ),
            );
        },
        Op::OrderMaterialize { strategy, truncation, input_index_fn, .. } => {
            let inner: Node = pop_one(stack);
            if let Some(c) = dispatch::for_name(*strategy) {
                let idx: Option<IndexFn> = match input_index_fn {
                    Some(i) => Some(i.copy()),
                    None => None,
                };
                put(
                    stack,
                    Node::Materialize(
                        OrderMaterializeStream {
                            inner: Box::new(inner),
                            strategy: c,
                            truncation: *truncation,
                            input_index_fn: idx,
                            materialized: None,
                            pos: 0,
                        },
                    ),
                );
            }
        },
        Op::Dispense => {},
    }
    proof {
        lemma_infos(stack@);
        assert(stack_rests(stack@) =~= dispense::step(o@, stack_rests(before)));
    }
}

proof fn lemma_runnable_prefix(ops: Seq<OpV>, k: int)
    requires
        dispense::runnable(ops),
        0 <= k <= ops.len(),
    ensures
        dispense::runnable(ops.take(k)),
    decreases ops.len(),
{
    if k == ops.len() {
        assert(ops.take(k) =~= ops);
    } else {
        lemma_runnable_prefix(ops.drop_last(), k);
        assert(ops.drop_last().take(k) =~= ops.take(k));
    }
}

/// The stream that `program` describes: it dispenses what the program's
/// instructions come to.
pub fn interpret(program: &Program) -> (r: Stream)
    requires
        dispense::complete(program@),
    ensures
        r.ready(),
        r.rest() == dispense::dispensed(program@),
{
    let mut stack: Vec<Node> = Vec::new();
    let ops: &[Op] = program.ops();
    let mut i: usize = 0;
    let ghost all = program@;
    proof {
        lemma_infos(stack@);
        assert(all.take(0) =~= Seq::<OpV>::empty());
        assert(stack_rests(stack@) =~= dispense::run(all.take(0)));
    }
    while i < ops.len()
        invariant
            i <= ops@.len(),
            all == op::op_views(ops@),
            dispense::runnable(all),
            all_ok(infos(stack@)),
            stack@.len() == stack_rests(stack@).len(),
            stack_rests(stack@) == dispense::run(all.take(i as int)),
        decreases ops.len() - i,
    {
        proof {
            lemma_runnable_prefix(all, i + 1);
            assert(all.take(i + 1).drop_last() =~= all.take(i as int));
            assert(all.take(i + 1).last() == ops@[i as int]@);
        }
        interpret_op(&mut stack, &ops[i]);
        i = i + 1;
    }
    assert(all.take(i as int) =~= all);
    let node: Node = pop_one(&mut stack);
    Stream { node }
}

} // verus!
