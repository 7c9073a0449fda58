//! What an evaluation at run time gives.
use crate::comprehension::ast::CompV;
use crate::comprehension::eval_source::OutcomeV;
use crate::comprehension::ir::compile;
use crate::comprehension::ir::dispense;
use crate::comprehension::metadata::IndexFnV;
use crate::comprehension::runtime;
use crate::comprehension::runtime::{
    AtV, BindingsV, FilterReplyV, NodeV, NotedV, QuestionV, RepliesV, RuntimeErrorV, StopV,
};
use crate::comprehension::source::SourceV;
use crate::comprehension::strategies;
use crate::comprehension::strategies::dispatch;
use crate::comprehension::strategies::Strategy;
use crate::comprehension::strategy::{StrategyName, ZipMode};
use crate::comprehension::surfaces::polydat_kernel;
use crate::comprehension::tuple::{TupleV, TupleValueV};
use crate::value::DatumV;
use vstd::arithmetic::div_mod::lemma_small_mod;
use vstd::prelude::*;

verus! {

// ---------------------------------------------------------------------
// Agreement with the program of a comprehension
// ---------------------------------------------------------------------

/// Tuples as the bindings of scopes.
pub open spec fn scoped(s: Seq<TupleV>) -> Seq<BindingsV> {
    Seq::new(s.len(), |i: int| polydat_kernel::scope_bindings(s[i]))
}

/// Whether a comprehension asks nothing of its surroundings: it combines
/// clauses over written values or ranges, none of them empty, without a
/// filter or an order, and zips strictly only what is equally long.
pub open spec fn settled(c: CompV) -> bool
    decreases c, 0nat,
{
    match c {
        CompV::Clause(_, s) => (s is Literal || s is IntRange) && compile::tuples_of(c).len() > 0,
        CompV::Cartesian(children) => children.len() > 0 && all_settled(children),
        CompV::Zip(children, mode) => {
            &&& children.len() > 0
            &&& all_settled(children)
            &&& forall|k: int|
                0 <= k < children.len() ==> compile::tuples_of(#[trigger] children[k]).len()
                    <= u64::MAX
            &&& mode is Strict ==> forall|k: int|
                0 <= k < children.len() ==> compile::tuples_of(#[trigger] children[k]).len()
                    == compile::tuples_of(children[0]).len()
        },
        CompV::Union(children) => children.len() > 0 && all_settled(children),
        CompV::Filter(_, _) => false,
        CompV::Order(_, _, _) => false,
    }
}

/// Whether each of a run of comprehensions is settled.
pub open spec fn all_settled(s: Seq<CompV>) -> bool
    decreases s, s.len(),
{
    s.len() > 0 ==> all_settled(s.drop_last()) && settled(s.last())
}

proof fn lemma_each_settled(s: Seq<CompV>, k: int)
    requires
        all_settled(s),
        0 <= k < s.len(),
    ensures
        settled(s[k]),
    decreases s.len(),
{
    if k < s.len() - 1 {
        lemma_each_settled(s.drop_last(), k);
    }
}

proof fn lemma_rest_settled(s: Seq<CompV>)
    requires
        all_settled(s),
        s.len() > 0,
    ensures
        all_settled(s.drop_first()),
    decreases s.len(),
{
    let rest = s.drop_first();
    if s.len() > 1 {
        lemma_rest_settled(s.drop_last());
        assert(rest.drop_last() =~= s.drop_last().drop_first());
        assert(rest.last() == s.last());
    }
}

proof fn lemma_product_nonempty(axes: Seq<Seq<TupleV>>)
    requires
        dispense::none_empty(axes),
    ensures
        dispense::product(axes).len() > 0,
    decreases axes.len(),
{
    if axes.len() > 0 {
        let rest = axes.drop_first();
        assert(dispense::none_empty(rest)) by {
            assert forall|k: int| 0 <= k < rest.len() implies (#[trigger] rest[k]).len() > 0 by {
                assert(rest[k] == axes[k + 1]);
            }
        }
        lemma_product_nonempty(rest);
        dispense::lemma_crossed_len(axes[0], dispense::product(rest));
        let a = axes[0].len();
        let b = dispense::product(rest).len();
        assert(axes[0].len() > 0);
        assert(a * b > 0) by (nonlinear_arith)
            requires
                a > 0,
                b > 0,
        ;
    }
}

proof fn lemma_count_sizes(axes: Seq<Seq<TupleV>>, sizes: Seq<u64>)
    requires
        axes.len() == sizes.len(),
        forall|k: int| 0 <= k < axes.len() ==> #[trigger] sizes[k] == axes[k].len(),
    ensures
        strategies::largest_of(sizes) == dispense::longest(axes),
        compile::smallest_of(sizes) == dispense::shortest(axes),
    decreases axes.len(),
{
    if axes.len() > 0 {
        let a = axes.drop_last();
        let b = sizes.drop_last();
        assert forall|k: int| 0 <= k < a.len() implies #[trigger] b[k] == a[k].len() by {
            assert(sizes[k] == axes[k].len());
        }
        lemma_count_sizes(a, b);
        assert(sizes[axes.len() - 1] == axes[axes.len() - 1].len());
    }
}

proof fn lemma_longest_positive(axes: Seq<Seq<TupleV>>)
    requires
        axes.len() > 0,
        dispense::none_empty(axes),
    ensures
        dispense::longest(axes) > 0,
        dispense::shortest(axes) > 0,
    decreases axes.len(),
{
    let front = axes.drop_last();
    assert(axes[axes.len() - 1].len() > 0);
    if front.len() > 0 {
        assert(dispense::none_empty(front)) by {
            assert forall|k: int| 0 <= k < front.len() implies (#[trigger] front[k]).len() > 0 by {
                assert(front[k] == axes[k]);
            }
        }
        lemma_longest_positive(front);
    }
}

/// A settled comprehension has tuples.
proof fn lemma_settled_nonempty(c: CompV)
    requires
        settled(c),
    ensures
        compile::tuples_of(c).len() > 0,
    decreases c, 0nat,
{
    match c {
        CompV::Clause(_, _) => {},
        CompV::Cartesian(children) => {
            lemma_axes_nonempty(children);
            lemma_product_nonempty(compile::tuples_of_each(children));
            compile::lemma_tuples_of_each(children);
        },
        CompV::Zip(children, _) => {
            lemma_axes_nonempty(children);
            compile::lemma_tuples_of_each(children);
            lemma_longest_positive(compile::tuples_of_each(children));
        },
        CompV::Union(children) => {
            lemma_axes_nonempty(children);
            compile::lemma_tuples_of_each(children);
            let axes = compile::tuples_of_each(children);
            assert(axes[0].len() > 0);
        },
        _ => {},
    }
}

proof fn lemma_axes_nonempty(s: Seq<CompV>)
    requires
        all_settled(s),
    ensures
        dispense::none_empty(compile::tuples_of_each(s)),
    decreases s, s.len(),
{
    compile::lemma_tuples_of_each(s);
    let axes = compile::tuples_of_each(s);
    if s.len() > 0 {
        lemma_axes_nonempty(s.drop_last());
        lemma_settled_nonempty(s.last());
        let front = compile::tuples_of_each(s.drop_last());
        compile::lemma_tuples_of_each(s.drop_last());
        assert forall|k: int| 0 <= k < axes.len() implies (#[trigger] axes[k]).len() > 0 by {
            if k < s.len() - 1 {
                assert(axes[k] == compile::tuples_of(s[k]));
                assert(front[k] == compile::tuples_of(s.drop_last()[k]));
                assert(front[k].len() > 0);
            } else {
                assert(axes[k] == compile::tuples_of(s[k]));
            }
        }
    }
}

/// Joined tuples give joined bindings.
proof fn lemma_scope_joined(a: TupleV, b: TupleV)
    ensures
        polydat_kernel::scope_bindings(a + b) == polydat_kernel::scope_bindings(a)
            + polydat_kernel::scope_bindings(b),
{
    assert(polydat_kernel::scope_bindings(a + b) =~= polydat_kernel::scope_bindings(a)
        + polydat_kernel::scope_bindings(b));
}

proof fn lemma_scoped_headed(h: TupleV, tails: Seq<TupleV>)
    ensures
        runtime::headed(polydat_kernel::scope_bindings(h), scoped(tails)) == scoped(
            dispense::prefixed(h, tails),
        ),
{
    let a = runtime::headed(polydat_kernel::scope_bindings(h), scoped(tails));
    let b = scoped(dispense::prefixed(h, tails));
    assert forall|i: int| 0 <= i < tails.len() implies a[i] == b[i] by {
        lemma_scope_joined(h, tails[i]);
    }
    assert(a =~= b);
}

/// An axis alone is its own product.
proof fn lemma_product_of_one(a: Seq<TupleV>)
    ensures
        dispense::product(seq![a]) == a,
{
    let axes = seq![a];
    let unit = seq![Seq::<(Seq<char>, TupleValueV)>::empty()];
    assert(axes.drop_first() =~= Seq::<Seq<TupleV>>::empty());
    assert(dispense::product(axes.drop_first()) == unit);
    lemma_crossed_unit(a);
}

proof fn lemma_crossed_unit(a: Seq<TupleV>)
    ensures
        dispense::crossed(a, seq![Seq::<(Seq<char>, TupleValueV)>::empty()]) == a,
    decreases a.len(),
{
    let unit = seq![Seq::<(Seq<char>, TupleValueV)>::empty()];
    if a.len() > 0 {
        lemma_crossed_unit(a.drop_first());
        let p = dispense::prefixed(a[0], unit);
        assert(p.len() == 1);
        assert(p[0] =~= a[0]);
        assert(p + a.drop_first() =~= a);
    } else {
        assert(dispense::crossed(a, unit) =~= a);
    }
}

proof fn lemma_crossed_one(h: TupleV, tails: Seq<TupleV>)
    ensures
        dispense::crossed(seq![h], tails) == dispense::prefixed(h, tails),
{
    let one = seq![h];
    assert(one.drop_first() =~= Seq::<TupleV>::empty());
    assert(dispense::crossed(one.drop_first(), tails) =~= Seq::<TupleV>::empty());
    assert(dispense::crossed(one, tails) =~= dispense::prefixed(h, tails));
}

/// A settled comprehension is evaluated at run time to the tuples that its
/// program dispenses, under any bindings, with no question asked.
pub proof fn law_evaluation_agrees(c: CompV, prefix: BindingsV, rep: RepliesV, at: AtV)
    requires
        settled(c),
    ensures
        runtime::eval(c, prefix, rep, at).1 == at,
        runtime::eval(c, prefix, rep, at).0 matches Ok(node) && node.tuples == scoped(
            compile::tuples_of(c),
        ),
    decreases c, 0nat, 0nat,
{
    let (r, next) = runtime::eval(c, prefix, rep, at);
    match c {
        CompV::Clause(name, s) => {
            assert(r->Ok_0.tuples =~= scoped(compile::tuples_of(c))) by {
                let a = r->Ok_0.tuples;
                let b = scoped(compile::tuples_of(c));
                assert(a.len() == b.len());
                assert forall|i: int| 0 <= i < a.len() implies a[i] == b[i] by {
                    assert(a[i] =~= b[i]);
                }
            }
        },
        CompV::Cartesian(children) => {
            let noted = NotedV { fns: Seq::empty(), dependent: false };
            lemma_product_agrees(children, prefix, noted, rep, at);
            compile::lemma_tuples_of_each(children);
        },
        CompV::Zip(children, mode) => {
            lemma_each_agrees(children, prefix, rep, at);
            let kids = runtime::eval_each(children, prefix, rep, at).0->Ok_0;
            lemma_zip_agrees(children, kids, mode);
        },
        CompV::Union(children) => {
            lemma_each_agrees(children, prefix, rep, at);
            let kids = runtime::eval_each(children, prefix, rep, at).0->Ok_0;
            compile::lemma_tuples_of_each(children);
            lemma_union_agrees(compile::tuples_of_each(children), kids);
        },
        _ => {},
    }
}

proof fn lemma_each_agrees(s: Seq<CompV>, prefix: BindingsV, rep: RepliesV, at: AtV)
    requires
        all_settled(s),
    ensures
        runtime::eval_each(s, prefix, rep, at).1 == at,
        runtime::eval_each(s, prefix, rep, at).0 matches Ok(kids) && kids.len() == s.len()
            && forall|k: int|
            0 <= k < s.len() ==> (#[trigger] kids[k]).tuples == scoped(compile::tuples_of(s[k])),
    decreases s, 1nat, s.len(),
{
    if s.len() > 0 {
        lemma_each_agrees(s.drop_last(), prefix, rep, at);
        law_evaluation_agrees(s.last(), prefix, rep, at);
    }
}

proof fn lemma_row_agrees(
    axes: Seq<Seq<TupleV>>,
    kids: Seq<NodeV>,
    mode: ZipMode,
    i: int,
)
    requires
        kids.len() == axes.len(),
        forall|k: int| 0 <= k < axes.len() ==> (#[trigger] kids[k]).tuples == scoped(axes[k]),
        dispense::none_empty(axes),
        0 <= i,
        !(mode is Cycle) ==> forall|k: int| 0 <= k < axes.len() ==> i < (#[trigger] axes[k]).len(),
    ensures
        runtime::side_row(kids, i, mode) == polydat_kernel::scope_bindings(dispense::row(axes, i)),
    decreases axes.len(),
{
    if axes.len() == 0 {
        assert(runtime::side_row(kids, i, mode) =~= polydat_kernel::scope_bindings(
            dispense::row(axes, i),
        ));
    } else {
        let a = axes.drop_last();
        let b = kids.drop_last();
        assert forall|k: int| 0 <= k < a.len() implies (#[trigger] b[k]).tuples == scoped(a[k]) by {
            assert(kids[k].tuples == scoped(axes[k]));
        }
        assert(dispense::none_empty(a)) by {
            assert forall|k: int| 0 <= k < a.len() implies (#[trigger] a[k]).len() > 0 by {
                assert(a[k] == axes[k]);
            }
        }
        if !(mode is Cycle) {
            assert forall|k: int| 0 <= k < a.len() implies i < (#[trigger] a[k]).len() by {
                assert(a[k] == axes[k]);
            }
        }
        lemma_row_agrees(a, b, mode, i);
        let n = axes.len() - 1;
        assert(kids[n].tuples == scoped(axes[n]));
        assert(axes[n].len() > 0);
        let own = axes[n];
        if !(mode is Cycle) {
            assert(i < axes[n].len());
            lemma_small_mod(i as nat, own.len());
        }
        let j = i % (own.len() as int);
        assert(0 <= j < own.len()) by (nonlinear_arith)
            requires
                j == i % (own.len() as int),
                own.len() > 0,
        ;
        lemma_scope_joined(dispense::row(a, i), own[j]);
    }
}

proof fn lemma_zip_agrees(children: Seq<CompV>, kids: Seq<NodeV>, mode: ZipMode)
    requires
        settled(CompV::Zip(children, mode)),
        kids.len() == children.len(),
        forall|k: int|
            0 <= k < children.len() ==> (#[trigger] kids[k]).tuples == scoped(
                compile::tuples_of(children[k]),
            ),
    ensures
        runtime::zip_node(kids, mode) matches Ok(node) && node.tuples == scoped(
            compile::tuples_of(CompV::Zip(children, mode)),
        ),
{
    let axes = compile::tuples_of_each(children);
    let sizes = runtime::lengths(kids);
    compile::lemma_tuples_of_each(children);
    lemma_axes_nonempty(children);
    assert forall|k: int| 0 <= k < axes.len() implies #[trigger] sizes[k] == axes[k].len() by {
        assert(axes[k] == compile::tuples_of(children[k]));
        assert(kids[k].tuples == scoped(axes[k]));
    }
    assert forall|k: int| 0 <= k < axes.len() implies (#[trigger] kids[k]).tuples == scoped(
        axes[k],
    ) by {
        assert(axes[k] == compile::tuples_of(children[k]));
    }
    lemma_count_sizes(axes, sizes);
    let whole = compile::tuples_of(CompV::Zip(children, mode));
    if mode is Strict {
        assert forall|k: int| 0 <= k < sizes.len() implies #[trigger] sizes[k] == sizes[0] by {
            assert(sizes[k] == axes[k].len());
            assert(axes[k] == compile::tuples_of(children[k]));
            assert(axes[0] == compile::tuples_of(children[0]));
            assert(sizes[0] == axes[0].len());
        }
        lemma_all_short(axes, sizes[0] as nat);
    }
    lemma_shortest_below(axes);
    let node = runtime::zip_node(kids, mode)->Ok_0;
    assert(node.tuples.len() == whole.len());
    assert forall|i: int| 0 <= i < whole.len() implies node.tuples[i] == scoped(whole)[i] by {
        if !(mode is Cycle) {
            assert forall|k: int| 0 <= k < axes.len() implies i < (#[trigger] axes[k]).len() by {
                assert(axes[k].len() >= dispense::shortest(axes));
            }
        }
        lemma_row_agrees(axes, kids, mode, i);
    }
    assert(node.tuples =~= scoped(whole));
}

proof fn lemma_shortest_below(axes: Seq<Seq<TupleV>>)
    ensures
        forall|k: int|
            0 <= k < axes.len() ==> (#[trigger] axes[k]).len() >= dispense::shortest(axes),
    decreases axes.len(),
{
    if axes.len() > 0 {
        let front = axes.drop_last();
        lemma_shortest_below(front);
        assert forall|k: int| 0 <= k < axes.len() implies (#[trigger] axes[k]).len()
            >= dispense::shortest(axes) by {
            if k < front.len() {
                assert(front[k] == axes[k]);
            }
        }
    }
}

proof fn lemma_all_short(axes: Seq<Seq<TupleV>>, n: nat)
    requires
        axes.len() > 0,
        forall|k: int| 0 <= k < axes.len() ==> (#[trigger] axes[k]).len() == n,
    ensures
        dispense::shortest(axes) == n,
    decreases axes.len(),
{
    let front = axes.drop_last();
    assert(axes[axes.len() - 1].len() == n);
    if front.len() > 0 {
        assert forall|k: int| 0 <= k < front.len() implies (#[trigger] front[k]).len() == n by {
            assert(front[k] == axes[k]);
        }
        lemma_all_short(front, n);
    }
}

proof fn lemma_union_agrees(axes: Seq<Seq<TupleV>>, kids: Seq<NodeV>)
    requires
        kids.len() == axes.len(),
        forall|k: int| 0 <= k < axes.len() ==> (#[trigger] kids[k]).tuples == scoped(axes[k]),
    ensures
        runtime::all_tuples(kids) == scoped(dispense::joined(axes)),
    decreases axes.len(),
{
    if axes.len() == 0 {
        assert(runtime::all_tuples(kids) =~= scoped(dispense::joined(axes)));
    } else {
        let a = axes.drop_last();
        let b = kids.drop_last();
        assert forall|k: int| 0 <= k < a.len() implies (#[trigger] b[k]).tuples == scoped(a[k]) by {
            assert(kids[k].tuples == scoped(axes[k]));
        }
        lemma_union_agrees(a, b);
        lemma_joined_last(axes);
        let n = axes.len() - 1;
        assert(kids[n].tuples == scoped(axes[n]));
        assert(scoped(dispense::joined(a)) + scoped(axes[n]) =~= scoped(
            dispense::joined(a) + axes[n],
        ));
    }
}

proof fn lemma_joined_last(axes: Seq<Seq<TupleV>>)
    requires
        axes.len() > 0,
    ensures
        dispense::joined(axes) == dispense::joined(axes.drop_last()) + axes.last(),
    decreases axes.len(),
{
    let front = axes.drop_last();
    if axes.len() == 1 {
        assert(axes.drop_first() =~= Seq::<Seq<TupleV>>::empty());
        assert(dispense::joined(axes.drop_first()) =~= Seq::<TupleV>::empty());
        assert(dispense::joined(axes) =~= dispense::joined(front) + axes.last());
    } else {
        let rest = axes.drop_first();
        lemma_joined_last(rest);
        assert(rest.drop_last() =~= front.drop_first());
        assert(rest.last() == axes.last());
        assert(front[0] == axes[0]);
        assert(axes[0] + (dispense::joined(rest.drop_last()) + axes.last()) =~= (axes[0]
            + dispense::joined(rest.drop_last())) + axes.last());
    }
}

proof fn lemma_product_agrees(
    s: Seq<CompV>,
    prefix: BindingsV,
    noted: NotedV,
    rep: RepliesV,
    at: AtV,
)
    requires
        all_settled(s),
        s.len() > 0,
    ensures
        runtime::eval_product(s, prefix, noted, rep, at).2 == at,
        runtime::eval_product(s, prefix, noted, rep, at).0 matches Ok(tuples) && tuples == scoped(
            dispense::product(compile::tuples_of_each(s)),
        ),
    decreases s, 1nat, 0nat,
{
    lemma_each_settled(s, 0);
    law_evaluation_agrees(s[0], prefix, rep, at);
    compile::lemma_tuples_of_each(s);
    let axes = compile::tuples_of_each(s);
    let node = runtime::eval(s[0], prefix, rep, at).0->Ok_0;
    let next = runtime::noted_child(noted, prefix.len(), node);
    assert(axes[0] == compile::tuples_of(s[0]));
    if s.len() == 1 {
        assert(axes =~= seq![axes[0]]);
        lemma_product_of_one(axes[0]);
    } else {
        let rest = s.drop_first();
        lemma_rest_settled(s);
        compile::lemma_tuples_of_each(rest);
        assert(axes.drop_first() =~= compile::tuples_of_each(rest));
        lemma_tails_agree(axes[0], rest, prefix, next, rep, at);
    }
}

proof fn lemma_tails_agree(
    heads: Seq<TupleV>,
    s: Seq<CompV>,
    prefix: BindingsV,
    noted: NotedV,
    rep: RepliesV,
    at: AtV,
)
    requires
        all_settled(s),
        s.len() > 0,
    ensures
        runtime::eval_tails(scoped(heads), s, prefix, noted, rep, at).2 == at,
        runtime::eval_tails(scoped(heads), s, prefix, noted, rep, at).0 matches Ok(tuples)
            && tuples == scoped(
            dispense::crossed(heads, dispense::product(compile::tuples_of_each(s))),
        ),
    decreases s, 2nat, heads.len(),
{
    let tails = dispense::product(compile::tuples_of_each(s));
    if heads.len() == 0 {
        assert(scoped(heads) =~= Seq::<BindingsV>::empty());
        assert(scoped(dispense::crossed(heads, tails)) =~= Seq::<BindingsV>::empty());
    } else {
        let front = heads.drop_last();
        lemma_tails_agree(front, s, prefix, noted, rep, at);
        assert(scoped(heads).drop_last() =~= scoped(front));
        let n = runtime::eval_tails(scoped(front), s, prefix, noted, rep, at).1;
        lemma_product_agrees(s, prefix + scoped(heads).last(), n, rep, at);
        lemma_scoped_headed(heads.last(), tails);
        lemma_crossed_one(heads.last(), tails);
        dispense::lemma_crossed_concat(front, seq![heads.last()], tails);
        assert(front + seq![heads.last()] =~= heads);
        let a = dispense::crossed(front, tails);
        let b = dispense::prefixed(heads.last(), tails);
        assert(scoped(a) + scoped(b) =~= scoped(a + b));
    }
}

// ---------------------------------------------------------------------
// Filters
// ---------------------------------------------------------------------

/// Whether a reply to a condition says yes: true, or a number that is not
/// zero.
pub open spec fn says_yes(r: FilterReplyV) -> bool {
    match r {
        FilterReplyV::Verdict(DatumV::Bool(b), _) => b,
        FilterReplyV::Verdict(DatumV::U64(n), _) => n != 0,
        FilterReplyV::Verdict(DatumV::F64(x), _) => x.bits != 0 && x.bits != crate::float::SIGN_BIT,
        _ => false,
    }
}

/// Whether a reply to a condition says yes or no at all.
pub open spec fn decides(r: FilterReplyV) -> bool {
    r matches FilterReplyV::Verdict(v, _) && (v is Bool || v is U64 || v is F64)
}

/// Whether `out` has of `s` exactly what the replies from `from` on say yes
/// to, at the places `at`.
pub open spec fn answered(
    s: Seq<BindingsV>,
    rep: RepliesV,
    from: nat,
    out: Seq<BindingsV>,
    at: Seq<int>,
) -> bool {
    &&& at.len() == out.len()
    &&& forall|i: int, j: int| 0 <= i < j < at.len() ==> #[trigger] at[i] < #[trigger] at[j]
    &&& forall|i: int| 0 <= i < out.len() ==> 0 <= #[trigger] at[i] < s.len() && out[i] == s[at[i]]
    &&& forall|j: int|
        0 <= j < s.len() ==> (at.contains(j) <==> says_yes(#[trigger] rep.filters[from + j]))
}

/// A filter keeps, in their order, the tuples that the replies say yes to,
/// with one reply for each tuple. It fails at the first reply that does not
/// decide, and asks about the first tuple that has no reply.
pub proof fn law_filter_by_replies(s: Seq<BindingsV>, p: Seq<char>, rep: RepliesV, at: AtV)
    requires
        forall|j: int| 0 <= j < s.len() && at.filters + j < rep.filters.len() ==> decides(
            #[trigger] rep.filters[at.filters + j],
        ),
    ensures
        ({
            let (r, next) = runtime::eval_filter(s, p, rep, at);
            &&& at.filters + s.len() <= rep.filters.len() ==> {
                &&& r is Ok
                &&& next == AtV { filters: at.filters + s.len(), ..at }
                &&& exists|places: Seq<int>| answered(s, rep, at.filters, r->Ok_0, places)
            }
            &&& at.filters <= rep.filters.len() < at.filters + s.len() ==> r == Err::<
                Seq<BindingsV>,
                StopV,
            >(StopV::Ask(QuestionV::Filter(p, s[rep.filters.len() - at.filters])))
        }),
    decreases s.len(),
{
    let (r, next) = runtime::eval_filter(s, p, rep, at);
    if s.len() == 0 {
        let none = Seq::<int>::empty();
        assert(answered(s, rep, at.filters, r->Ok_0, none));
    } else {
        let front = s.drop_last();
        law_filter_by_replies(front, p, rep, at);
        let n = s.len() - 1;
        if at.filters + s.len() <= rep.filters.len() {
            let had = runtime::eval_filter(front, p, rep, at).0->Ok_0;
            let places = choose|places: Seq<int>| answered(front, rep, at.filters, had, places);
            assert(decides(rep.filters[at.filters + n]));
            let out = r->Ok_0;
            let reply = rep.filters[at.filters + n];
            let all = if says_yes(reply) {
                places.push(n)
            } else {
                places
            };
            assert(answered(s, rep, at.filters, out, all)) by {
                assert forall|i: int| 0 <= i < out.len() implies 0 <= #[trigger] all[i] < s.len()
                    && out[i] == s[all[i]] by {
                    if i < places.len() {
                        assert(all[i] == places[i]);
                        assert(front[places[i]] == s[places[i]]);
                    }
                }
                assert forall|i: int, j: int| 0 <= i < j < all.len() implies #[trigger] all[i]
                    < #[trigger] all[j] by {
                    assert(all[i] == places[i]);
                    if j < places.len() {
                        assert(all[j] == places[j]);
                    }
                }
                assert forall|j: int| 0 <= j < s.len() implies (all.contains(j) <==> says_yes(
                    #[trigger] rep.filters[at.filters + j],
                )) by {
                    if j < n {
                        assert(places.contains(j) <==> says_yes(rep.filters[at.filters + j]));
                        if places.contains(j) {
                            let i = choose|i: int| 0 <= i < places.len() && places[i] == j;
                            assert(all[i] == j);
                        }
                        if all.contains(j) {
                            let i = choose|i: int| 0 <= i < all.len() && all[i] == j;
                            assert(places[i] == j);
                        }
                    } else {
                        if says_yes(reply) {
                            assert(all[places.len() as int] == n);
                        } else if all.contains(j) {
                            let i = choose|i: int| 0 <= i < all.len() && all[i] == j;
                            assert(0 <= places[i] < front.len());
                        }
                    }
                }
            }
        }
    }
}

// ---------------------------------------------------------------------
// Orders
// ---------------------------------------------------------------------

/// The places that are found are places of the input, none of them twice,
/// each with a tuple equal to the one looked for.
proof fn lemma_places(ordered: Seq<TupleV>, s: Seq<TupleV>)
    ensures
        runtime::places(ordered, s) matches Some((found, used)) ==> {
            &&& found.len() == ordered.len()
            &&& used.len() == s.len()
            &&& found.no_duplicates()
            &&& forall|i: int|
                0 <= i < found.len() ==> 0 <= #[trigger] found[i] < s.len()
                    && runtime::tuples_equal(s[found[i]], ordered[i]) && used[found[i]]
        },
    decreases ordered.len(),
{
    if ordered.len() > 0 {
        let front = ordered.drop_last();
        lemma_places(front, s);
        match runtime::places(front, s) {
            Some((had, used)) => {
                lemma_first_match(s, used, ordered.last(), 0);
                match runtime::first_match(s, used, ordered.last(), 0) {
                    Some(k) => {
                        let found = had.push(k);
                        let now = used.update(k, true);
                        assert forall|i: int| 0 <= i < found.len() implies 0 <= #[trigger] found[i]
                            < s.len() && runtime::tuples_equal(s[found[i]], ordered[i])
                            && now[found[i]] by {
                            if i < had.len() {
                                assert(found[i] == had[i]);
                                assert(front[i] == ordered[i]);
                            }
                        }
                        assert forall|i: int, j: int|
                            0 <= i < found.len() && 0 <= j < found.len() && i != j implies found[i]
                            != found[j] by {
                            if i < had.len() {
                                assert(used[had[i]]);
                                assert(found[i] == had[i]);
                            }
                            if j < had.len() {
                                assert(used[had[j]]);
                                assert(found[j] == had[j]);
                            }
                        }
                    },
                    None => {},
                }
            },
            None => {},
        }
    }
}

proof fn lemma_first_match(s: Seq<TupleV>, used: Seq<bool>, t: TupleV, from: int)
    ensures
        runtime::first_match(s, used, t, from) matches Some(k) ==> 0 <= k < s.len() && !used[k]
            && runtime::tuples_equal(s[k], t),
    decreases s.len() - from,
{
    if 0 <= from < s.len() {
        lemma_first_match(s, used, t, from + 1);
    }
}

/// The tuples of a child as an order sees them.
pub open spec fn seen_by_order(node: NodeV, rep: RepliesV, at: AtV) -> Seq<TupleV> {
    runtime::plain_tuples(node.tuples, rep, at).0->Ok_0
}

/// What a strategy gives of what an order sees.
pub open spec fn given_by_strategy(
    node: NodeV,
    strategy: StrategyName,
    truncation: Option<u64>,
    rep: RepliesV,
    at: AtV,
) -> Seq<TupleV> {
    let seen = seen_by_order(node, rep, at);
    dispatch::chosen(strategy)->0.ordered(
        seen,
        match node.index {
            Some(i) => i,
            None => IndexFnV::Lattice(seq![seen.len() as u64]),
        },
        truncation,
    )
}

/// An order at run time gives tuples of its child, none of them twice, one
/// for each that its strategy gives and equal to it as the strategy sees
/// it.
pub proof fn law_order_draws_from_child(
    node: NodeV,
    strategy: StrategyName,
    truncation: Option<u64>,
    rep: RepliesV,
    at: AtV,
)
    requires
        runtime::eval_order(node, strategy, truncation, rep, at).0 is Ok,
    ensures
        exists|from: Seq<int>| #[trigger]
            drawn(
                node.tuples,
                seen_by_order(node, rep, at),
                given_by_strategy(node, strategy, truncation, rep, at),
                runtime::eval_order(node, strategy, truncation, rep, at).0->Ok_0.tuples,
                from,
            ),
{
    let seen = seen_by_order(node, rep, at);
    let want = given_by_strategy(node, strategy, truncation, rep, at);
    lemma_places(want, seen);
    lemma_plain_len(node.tuples, rep, at);
    let (found, _) = runtime::places(want, seen)->0;
    let out = runtime::eval_order(node, strategy, truncation, rep, at).0->Ok_0.tuples;
    assert(found.len() == out.len());
    assert(drawn(node.tuples, seen, want, out, found));
}

/// Whether tuples are those of a child at the places `from`, each place
/// once, and look like those wanted.
pub open spec fn drawn(
    tuples: Seq<BindingsV>,
    seen: Seq<TupleV>,
    want: Seq<TupleV>,
    out: Seq<BindingsV>,
    from: Seq<int>,
) -> bool {
    &&& from.len() == out.len() == want.len()
    &&& seen.len() == tuples.len()
    &&& from.no_duplicates()
    &&& forall|i: int|
        0 <= i < out.len() ==> 0 <= #[trigger] from[i] < tuples.len() && out[i] == tuples[from[i]]
            && runtime::tuples_equal(seen[from[i]], want[i])
}

proof fn lemma_plain_len(s: Seq<BindingsV>, rep: RepliesV, at: AtV)
    ensures
        runtime::plain_tuples(s, rep, at).0 matches Ok(ts) ==> ts.len() == s.len(),
    decreases s.len(),
{
    if s.len() > 0 {
        lemma_plain_len(s.drop_last(), rep, at);
    }
}

/// A strict zip of children of different lengths fails.
pub proof fn law_strict_zip_refuses(kids: Seq<NodeV>, i: int)
    requires
        0 <= i < kids.len(),
        kids[i].tuples.len() != kids[0].tuples.len(),
        kids[i].tuples.len() <= u64::MAX,
        kids[0].tuples.len() <= u64::MAX,
    ensures
        runtime::zip_node(kids, ZipMode::Strict) matches Err(StopV::Failed(e)) && e is UnsupportedShape,
{
    let sizes = runtime::lengths(kids);
    assert(sizes[i] != sizes[0]);
}

// ---------------------------------------------------------------------
// Questions
// ---------------------------------------------------------------------

/// A clause over an expression asks what the expression comes to under the
/// bindings before it, and has one tuple for each value of the reply, in
/// their order.
pub proof fn law_clause_asks(
    name: Seq<char>,
    text: Seq<char>,
    hint: Option<u64>,
    prefix: BindingsV,
    rep: RepliesV,
    at: AtV,
)
    ensures
        ({
            let c = CompV::Clause(name, SourceV::Generator(text, hint));
            let (r, next) = runtime::eval(c, prefix, rep, at);
            &&& at.sources >= rep.sources.len() ==> r == Err::<NodeV, StopV>(
                StopV::Ask(QuestionV::Source(name, text, prefix)),
            )
            &&& at.sources < rep.sources.len() ==> {
                &&& rep.sources[at.sources as int] is Values
                    && rep.sources[at.sources as int]->Values_0.len() > 0 ==> {
                    let vs = rep.sources[at.sources as int]->Values_0;
                    &&& r is Ok
                    &&& r->Ok_0.tuples.len() == vs.len()
                    &&& forall|i: int|
                        0 <= i < vs.len() ==> #[trigger] r->Ok_0.tuples[i] == seq![(name, vs[i])]
                    &&& next == AtV { sources: at.sources + 1, ..at }
                }
                &&& rep.sources[at.sources as int] matches OutcomeV::Failed(m) ==> r == Err::<
                    NodeV,
                    StopV,
                >(StopV::Failed(RuntimeErrorV::SourceEval(name, text, m)))
            }
        }),
{
}

/// A clause without values asks whether that is accepted; where it is, there
/// are no tuples, where it is not, the evaluation fails as the reply says.
pub proof fn law_empty_clause_asks(
    name: Seq<char>,
    prefix: BindingsV,
    rep: RepliesV,
    at: AtV,
)
    ensures
        ({
            let c = CompV::Clause(name, SourceV::Literal(Seq::empty()));
            let (r, next) = runtime::eval(c, prefix, rep, at);
            &&& at.empties >= rep.empties.len() ==> r == Err::<NodeV, StopV>(
                StopV::Ask(QuestionV::Empty(name, None)),
            )
            &&& at.empties < rep.empties.len() ==> {
                &&& rep.empties[at.empties as int] is None ==> r is Ok && r->Ok_0.tuples.len() == 0
                &&& rep.empties[at.empties as int] matches Some(m) ==> r == Err::<NodeV, StopV>(
                    StopV::Failed(RuntimeErrorV::EmptyPolicy(m)),
                )
            }
        }),
{
}

/// Whether each of `k` replies from `from` on is a run of values that is
/// not empty.
pub open spec fn replied(rep: RepliesV, from: nat, k: nat) -> bool {
    forall|j: int|
        0 <= j < k ==> ((#[trigger] rep.sources[from + j]) matches OutcomeV::Values(vs) && vs.len()
            > 0)
}

/// The tuples of a product whose last clause has the values of one reply
/// under each of a run of heads: for each head, in their order, the head with
/// each value of its reply behind it.
pub open spec fn under_heads(
    heads: Seq<BindingsV>,
    name: Seq<char>,
    rep: RepliesV,
    from: nat,
) -> Seq<BindingsV>
    decreases heads.len(),
{
    if heads.len() == 0 {
        Seq::empty()
    } else {
        let vs = rep.sources[from + heads.len() - 1]->Values_0;
        under_heads(heads.drop_last(), name, rep, from) + Seq::new(
            vs.len(),
            |i: int| heads.last().push((name, vs[i])),
        )
    }
}

/// A product of one clause over an expression is that clause.
proof fn lemma_one_asked(
    name: Seq<char>,
    text: Seq<char>,
    hint: Option<u64>,
    prefix: BindingsV,
    noted: NotedV,
    rep: RepliesV,
    at: AtV,
)
    ensures
        ({
            let c = CompV::Clause(name, SourceV::Generator(text, hint));
            let (r, _, next) = runtime::eval_product(seq![c], prefix, noted, rep, at);
            &&& at.sources >= rep.sources.len() ==> r == Err::<Seq<BindingsV>, StopV>(
                StopV::Ask(QuestionV::Source(name, text, prefix)),
            )
            &&& at.sources < rep.sources.len() && rep.sources[at.sources as int] is Values
                && rep.sources[at.sources as int]->Values_0.len() > 0 ==> {
                let vs = rep.sources[at.sources as int]->Values_0;
                &&& r == Ok::<Seq<BindingsV>, StopV>(
                    Seq::new(vs.len(), |i: int| seq![(name, vs[i])]),
                )
                &&& next == AtV { sources: at.sources + 1, ..at }
            }
        }),
{
    let c = CompV::Clause(name, SourceV::Generator(text, hint));
    let s = seq![c];
    assert(s[0] == c);
    law_clause_asks(name, text, hint, prefix, rep, at);
    let (head, mid) = runtime::eval(c, prefix, rep, at);
    match head {
        Ok(node) => {
            assert(runtime::eval_product(s, prefix, noted, rep, at) == (
                Ok::<Seq<BindingsV>, StopV>(node.tuples),
                runtime::noted_child(noted, prefix.len(), node),
                mid,
            ));
            if at.sources < rep.sources.len() && rep.sources[at.sources as int] is Values
                && rep.sources[at.sources as int]->Values_0.len() > 0 {
                let vs = rep.sources[at.sources as int]->Values_0;
                assert(node.tuples =~= Seq::new(vs.len(), |i: int| seq![(name, vs[i])]));
            }
        },
        Err(e) => {
            assert(runtime::eval_product(s, prefix, noted, rep, at) == (
                Err::<Seq<BindingsV>, StopV>(e),
                noted,
                mid,
            ));
        },
    }
}

proof fn lemma_tails_replied(
    heads: Seq<BindingsV>,
    name: Seq<char>,
    text: Seq<char>,
    hint: Option<u64>,
    prefix: BindingsV,
    noted: NotedV,
    rep: RepliesV,
    at: AtV,
)
    requires
        at.sources + heads.len() <= rep.sources.len(),
        replied(rep, at.sources, heads.len()),
    ensures
        ({
            let s = seq![CompV::Clause(name, SourceV::Generator(text, hint))];
            let (r, _, next) = runtime::eval_tails(heads, s, prefix, noted, rep, at);
            &&& r == Ok::<Seq<BindingsV>, StopV>(under_heads(heads, name, rep, at.sources))
            &&& next == AtV { sources: at.sources + heads.len(), ..at }
        }),
    decreases heads.len(),
{
    let s = seq![CompV::Clause(name, SourceV::Generator(text, hint))];
    if heads.len() > 0 {
        let front = heads.drop_last();
        assert(replied(rep, at.sources, front.len())) by {
            assert forall|j: int| 0 <= j < front.len() implies ((
            #[trigger] rep.sources[at.sources + j]) matches OutcomeV::Values(vs) && vs.len() > 0) by {
            }
        }
        lemma_tails_replied(front, name, text, hint, prefix, noted, rep, at);
        let (before, n, mid) = runtime::eval_tails(front, s, prefix, noted, rep, at);
        let k = heads.len() - 1;
        assert(rep.sources[at.sources + k] is Values);
        assert(mid.sources == at.sources + k);
        lemma_one_asked(name, text, hint, prefix + heads.last(), n, rep, mid);
        let vs = rep.sources[at.sources + k]->Values_0;
        let tails = Seq::new(vs.len(), |i: int| seq![(name, vs[i])]);
        let want = Seq::new(vs.len(), |i: int| heads.last().push((name, vs[i])));
        assert forall|i: int| 0 <= i < vs.len() implies #[trigger] runtime::headed(
            heads.last(),
            tails,
        )[i] == want[i] by {
            assert(heads.last() + seq![(name, vs[i])] =~= heads.last().push((name, vs[i])));
        }
        assert(runtime::headed(heads.last(), tails) =~= want);
    }
}

proof fn lemma_tails_ask(
    heads: Seq<BindingsV>,
    name: Seq<char>,
    text: Seq<char>,
    hint: Option<u64>,
    prefix: BindingsV,
    noted: NotedV,
    rep: RepliesV,
    at: AtV,
    k: nat,
)
    requires
        k < heads.len(),
        rep.sources.len() == at.sources + k,
        replied(rep, at.sources, k),
    ensures
        ({
            let s = seq![CompV::Clause(name, SourceV::Generator(text, hint))];
            runtime::eval_tails(heads, s, prefix, noted, rep, at).0 == Err::<Seq<BindingsV>, StopV>(
                StopV::Ask(QuestionV::Source(name, text, prefix + heads[k as int])),
            )
        }),
    decreases heads.len(),
{
    let s = seq![CompV::Clause(name, SourceV::Generator(text, hint))];
    let front = heads.drop_last();
    if k < front.len() {
        lemma_tails_ask(front, name, text, hint, prefix, noted, rep, at, k);
        assert(front[k as int] == heads[k as int]);
    } else {
        lemma_tails_replied(front, name, text, hint, prefix, noted, rep, at);
        let (before, n, mid) = runtime::eval_tails(front, s, prefix, noted, rep, at);
        lemma_one_asked(name, text, hint, prefix + heads.last(), n, rep, mid);
    }
}

/// In a product an expression is asked about once for each tuple before it,
/// in their order, under the bindings of that tuple: with replies to the
/// first of these questions, the next one is asked.
pub proof fn law_questions_follow_the_heads(
    head: CompV,
    name: Seq<char>,
    text: Seq<char>,
    hint: Option<u64>,
    prefix: BindingsV,
    rep: RepliesV,
    at: AtV,
    k: nat,
)
    requires
        settled(head),
        k < compile::tuples_of(head).len(),
        rep.sources.len() == at.sources + k,
        replied(rep, at.sources, k),
    ensures
        runtime::eval(
            CompV::Cartesian(
                seq![head, CompV::Clause(name, SourceV::Generator(text, hint))],
            ),
            prefix,
            rep,
            at,
        ).0 == Err::<NodeV, StopV>(
            StopV::Ask(
                QuestionV::Source(
                    name,
                    text,
                    prefix + polydat_kernel::scope_bindings(compile::tuples_of(head)[k as int]),
                ),
            ),
        ),
{
    let last = CompV::Clause(name, SourceV::Generator(text, hint));
    let children = seq![head, last];
    law_evaluation_agrees(head, prefix, rep, at);
    let heads = scoped(compile::tuples_of(head));
    let noted = NotedV { fns: Seq::empty(), dependent: false };
    let node = runtime::eval(head, prefix, rep, at).0->Ok_0;
    let next = runtime::noted_child(noted, prefix.len(), node);
    assert(children.drop_first() =~= seq![last]);
    assert(children[0] == head);
    lemma_tails_ask(heads, name, text, hint, prefix, next, rep, at, k);
    assert(runtime::eval_product(children, prefix, noted, rep, at) == runtime::eval_tails(
        heads,
        seq![last],
        prefix,
        next,
        rep,
        at,
    ));
}

/// With a reply for each tuple before it, an expression in a product gives
/// for each of these tuples, in their order, the tuple with each value of its
/// reply behind it.
pub proof fn law_replies_under_the_heads(
    head: CompV,
    name: Seq<char>,
    text: Seq<char>,
    hint: Option<u64>,
    prefix: BindingsV,
    rep: RepliesV,
    at: AtV,
)
    requires
        settled(head),
        at.sources + compile::tuples_of(head).len() <= rep.sources.len(),
        replied(rep, at.sources, compile::tuples_of(head).len()),
    ensures
        runtime::eval(
            CompV::Cartesian(
                seq![head, CompV::Clause(name, SourceV::Generator(text, hint))],
            ),
            prefix,
            rep,
            at,
        ).0 matches Ok(node) && node.tuples == under_heads(
            scoped(compile::tuples_of(head)),
            name,
            rep,
            at.sources,
        ),
{
    let last = CompV::Clause(name, SourceV::Generator(text, hint));
    let children = seq![head, last];
    law_evaluation_agrees(head, prefix, rep, at);
    let heads = scoped(compile::tuples_of(head));
    let noted = NotedV { fns: Seq::empty(), dependent: false };
    let node = runtime::eval(head, prefix, rep, at).0->Ok_0;
    let next = runtime::noted_child(noted, prefix.len(), node);
    assert(children.drop_first() =~= seq![last]);
    assert(children[0] == head);
    lemma_tails_replied(heads, name, text, hint, prefix, next, rep, at);
    assert(runtime::eval_product(children, prefix, noted, rep, at) == runtime::eval_tails(
        heads,
        seq![last],
        prefix,
        next,
        rep,
        at,
    ));
}

} // verus!
