//! When the rewrites apply, and what they leave.
use super::r0b_flatten;
use super::r3_commute;
use crate::comprehension::ast::CompV;
use crate::comprehension::ir::compile;
use crate::comprehension::ir::dispense;
use crate::comprehension::ir::op;
use crate::comprehension::ir::op::OpV;
use crate::comprehension::metadata::IndexFnV;
use crate::comprehension::strategy::{StrategyName, ZipMode};
use crate::comprehension::tuple::TupleV;
use vstd::prelude::*;

verus! {

/// Whether a union or a product has a child of its own kind.
pub open spec fn nested(c: CompV) -> bool {
    match c {
        CompV::Union(children) => exists|i: int|
            0 <= i < children.len() && (#[trigger] children[i]) is Union,
        CompV::Cartesian(children) => exists|i: int|
            0 <= i < children.len() && (#[trigger] children[i]) is Cartesian,
        _ => false,
    }
}

proof fn lemma_no_unions_left(s: Seq<CompV>)
    requires
        forall|i: int| 0 <= i < s.len() ==> ((#[trigger] s[i]) is Union ==> !nested(s[i])),
    ensures
        forall|i: int|
            0 <= i < r0b_flatten::without_unions(s).len() ==> !((
            #[trigger] r0b_flatten::without_unions(s)[i]) is Union),
    decreases s.len(),
{
    if s.len() > 0 {
        let front = s.drop_last();
        assert forall|i: int| 0 <= i < front.len() implies ((#[trigger] front[i]) is Union
            ==> !nested(front[i])) by {
            assert(front[i] == s[i]);
        }
        lemma_no_unions_left(front);
        let had = r0b_flatten::without_unions(front);
        let all = r0b_flatten::without_unions(s);
        assert(s[s.len() - 1] == s.last());
        assert forall|i: int| 0 <= i < all.len() implies !((#[trigger] all[i]) is Union) by {
            if i < had.len() {
                assert(all[i] == had[i]);
            } else {
                match s.last() {
                    CompV::Union(inner) => {
                        assert(all[i] == inner[i - had.len()]);
                    },
                    other => {},
                }
            }
        }
    }
}

proof fn lemma_no_products_left(s: Seq<CompV>)
    requires
        forall|i: int| 0 <= i < s.len() ==> ((#[trigger] s[i]) is Cartesian ==> !nested(s[i])),
    ensures
        forall|i: int|
            0 <= i < r0b_flatten::without_products(s).len() ==> !((
            #[trigger] r0b_flatten::without_products(s)[i]) is Cartesian),
    decreases s.len(),
{
    if s.len() > 0 {
        let front = s.drop_last();
        assert forall|i: int| 0 <= i < front.len() implies ((#[trigger] front[i]) is Cartesian
            ==> !nested(front[i])) by {
            assert(front[i] == s[i]);
        }
        lemma_no_products_left(front);
        let had = r0b_flatten::without_products(front);
        let all = r0b_flatten::without_products(s);
        assert(s[s.len() - 1] == s.last());
        assert forall|i: int| 0 <= i < all.len() implies !((#[trigger] all[i]) is Cartesian) by {
            if i < had.len() {
                assert(all[i] == had[i]);
            } else {
                match s.last() {
                    CompV::Cartesian(inner) => {
                        assert(all[i] == inner[i - had.len()]);
                    },
                    other => {},
                }
            }
        }
    }
}

/// A comprehension is flattened exactly when a union has a union, or a
/// product a product, among its children; it stays what it is, and where the
/// children were flat themselves it is flat then.
pub proof fn law_flattens_what_is_nested(c: CompV)
    ensures
        r0b_flatten::flattened(c) is Some <==> nested(c),
        r0b_flatten::flattened(c) matches Some(f) ==> {
            &&& f is Union <==> c is Union
            &&& f is Cartesian <==> c is Cartesian
        },
        c matches CompV::Union(children) ==> (forall|i: int|
            0 <= i < children.len() ==> ((#[trigger] children[i]) is Union ==> !nested(
                children[i],
            ))) ==> (r0b_flatten::flattened(c) matches Some(f) ==> !nested(f)),
        c matches CompV::Cartesian(children) ==> (forall|i: int|
            0 <= i < children.len() ==> ((#[trigger] children[i]) is Cartesian ==> !nested(
                children[i],
            ))) ==> (r0b_flatten::flattened(c) matches Some(f) ==> !nested(f)),
{
    match c {
        CompV::Union(children) => {
            if forall|i: int|
                0 <= i < children.len() ==> ((#[trigger] children[i]) is Union ==> !nested(
                    children[i],
                )) {
                lemma_no_unions_left(children);
            }
        },
        CompV::Cartesian(children) => {
            if forall|i: int|
                0 <= i < children.len() ==> ((#[trigger] children[i]) is Cartesian ==> !nested(
                    children[i],
                )) {
                lemma_no_products_left(children);
            }
        },
        _ => {},
    }
}

/// The uncut natural order over a filter goes inside it, and nothing else
/// is rewritten so.
pub proof fn law_order_goes_inside(c: CompV)
    ensures
        r3_commute::commuted(c) is Some <==> (c matches CompV::Order(child, s, None) && s is Lex
            && *child is Filter),
        r3_commute::commuted(c) matches Some(f) ==> {
            &&& f is Filter
            &&& *f->Filter_0 is Order
            &&& *(*f->Filter_0)->Order_0 == *(*c->Order_0)->Filter_0
        },
{
}

/// An instruction leaves as many streams as it says: it takes some and puts
/// one; only the last one takes and puts none.
pub proof fn law_stack_effect(o: OpV, stack: Seq<Seq<TupleV>>)
    requires
        op::pops(o) <= stack.len(),
    ensures
        dispense::step(o, stack).len() == stack.len() - op::pops(o) + op::pushes(o),
        forall|i: int|
            0 <= i < stack.len() - op::pops(o) ==> #[trigger] dispense::step(o, stack)[i] == stack[i],
{
}

/// Of the orders only the natural one is dispensed as it comes; of the zips
/// only a cycled one has to hold its children.
pub proof fn law_what_is_held(
    strategy: StrategyName,
    truncation: Option<u64>,
    idx: Option<IndexFnV>,
    n: nat,
    mode: ZipMode,
    p: Seq<char>,
)
    ensures
        op::barrier(compile::order_op(strategy, truncation, idx)) <==> !(strategy is Lex),
        op::barrier(OpV::Zip(n, mode)) <==> mode is Cycle,
        !op::barrier(OpV::Cartesian(n)),
        !op::barrier(OpV::Union(n)),
        !op::barrier(OpV::Filter(p)),
{
}

} // verus!
