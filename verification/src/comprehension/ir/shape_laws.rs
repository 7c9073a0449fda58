//! What the tuples of a comprehension bind, how many there are, and what
//! their places are.
use super::compile;
use super::dispense;
use super::tuple_laws;
use crate::comprehension::ast::CompV;
use crate::comprehension::metadata;
use crate::comprehension::metadata::IndexFnV;
use crate::comprehension::strategies;
use crate::comprehension::strategies::lattice;
use crate::comprehension::tuple::{TupleV, TupleValueV};
use crate::dsl::tile_source;
use vstd::prelude::*;

verus! {

// ---------------------------------------------------------------------
// Names
// ---------------------------------------------------------------------

/// The names that a tuple binds, in their order.
pub open spec fn names_of(t: TupleV) -> Seq<Seq<char>> {
    Seq::new(t.len(), |i: int| t[i].0)
}

/// Whether every tuple of a run binds these names, in this order.
pub open spec fn all_bind(s: Seq<TupleV>, names: Seq<Seq<char>>) -> bool {
    forall|i: int| 0 <= i < s.len() ==> names_of(#[trigger] s[i]) == names
}

/// Whether a comprehension is made of clauses, products, zips and filters.
pub open spec fn uniform(c: CompV) -> bool
    decreases c, 0nat,
{
    match c {
        CompV::Clause(_, _) => true,
        CompV::Cartesian(children) => all_uniform(children),
        CompV::Zip(children, _) => all_uniform(children),
        CompV::Union(_) => false,
        CompV::Filter(child, _) => uniform(*child),
        CompV::Order(_, _, _) => false,
    }
}

/// Whether each of a run of comprehensions is.
pub open spec fn all_uniform(s: Seq<CompV>) -> bool
    decreases s, s.len(),
{
    s.len() > 0 ==> all_uniform(s.drop_last()) && uniform(s.last())
}

proof fn lemma_names_joined(a: TupleV, b: TupleV)
    ensures
        names_of(a + b) == names_of(a) + names_of(b),
{
    assert(names_of(a + b) =~= names_of(a) + names_of(b));
}

proof fn lemma_crossed_names(heads: Seq<TupleV>, tails: Seq<TupleV>, a: Seq<Seq<char>>, b: Seq<Seq<char>>)
    requires
        all_bind(heads, a),
        all_bind(tails, b),
    ensures
        all_bind(dispense::crossed(heads, tails), a + b),
    decreases heads.len(),
{
    if heads.len() > 0 {
        let rest = heads.drop_first();
        assert forall|i: int| 0 <= i < rest.len() implies names_of(#[trigger] rest[i]) == a by {
            assert(rest[i] == heads[i + 1]);
        }
        lemma_crossed_names(rest, tails, a, b);
        let first = dispense::prefixed(heads[0], tails);
        let more = dispense::crossed(rest, tails);
        let all = dispense::crossed(heads, tails);
        assert forall|i: int| 0 <= i < all.len() implies names_of(#[trigger] all[i]) == a + b by {
            if i < first.len() {
                assert(all[i] == heads[0] + tails[i]);
                lemma_names_joined(heads[0], tails[i]);
                assert(names_of(heads[0]) == a);
                assert(names_of(tails[i]) == b);
            } else {
                assert(all[i] == more[i - first.len()]);
            }
        }
    }
}

/// The names of each of a run of comprehensions.
pub open spec fn each_names(s: Seq<CompV>) -> Seq<Seq<Seq<char>>> {
    Seq::new(s.len(), |i: int| tile_source::element_names(s[i]))
}

/// Runs of names one after the other.
pub open spec fn joined_names(s: Seq<Seq<Seq<char>>>) -> Seq<Seq<char>>
    decreases s.len(),
{
    if s.len() == 0 {
        Seq::empty()
    } else {
        s[0] + joined_names(s.drop_first())
    }
}

proof fn lemma_joined_names_last(s: Seq<Seq<Seq<char>>>)
    requires
        s.len() > 0,
    ensures
        joined_names(s) == joined_names(s.drop_last()) + s.last(),
    decreases s.len(),
{
    let front = s.drop_last();
    if s.len() == 1 {
        assert(s.drop_first() =~= Seq::<Seq<Seq<char>>>::empty());
        assert(joined_names(s.drop_first()) =~= Seq::<Seq<char>>::empty());
        assert(joined_names(s) =~= joined_names(front) + s.last());
    } else {
        let rest = s.drop_first();
        lemma_joined_names_last(rest);
        assert(rest.drop_last() =~= front.drop_first());
        assert(rest.last() == s.last());
        assert(front[0] == s[0]);
        assert(s[0] + (joined_names(rest.drop_last()) + s.last()) =~= (s[0] + joined_names(
            rest.drop_last(),
        )) + s.last());
    }
}

proof fn lemma_all_names(s: Seq<CompV>)
    ensures
        tile_source::all_element_names(s) == joined_names(each_names(s)),
    decreases s.len(),
{
    if s.len() == 0 {
        assert(each_names(s) =~= Seq::<Seq<Seq<char>>>::empty());
    } else {
        lemma_all_names(s.drop_last());
        lemma_joined_names_last(each_names(s));
        assert(each_names(s).drop_last() =~= each_names(s.drop_last()));
    }
}

proof fn lemma_product_names(axes: Seq<Seq<TupleV>>, names: Seq<Seq<Seq<char>>>)
    requires
        axes.len() == names.len(),
        forall|k: int| 0 <= k < axes.len() ==> all_bind(#[trigger] axes[k], names[k]),
    ensures
        all_bind(dispense::product(axes), joined_names(names)),
    decreases axes.len(),
{
    if axes.len() == 0 {
        let unit = dispense::product(axes);
        assert forall|i: int| 0 <= i < unit.len() implies names_of(#[trigger] unit[i])
            == joined_names(names) by {
            assert(names_of(unit[i]) =~= Seq::<Seq<char>>::empty());
        }
    } else {
        let rest = axes.drop_first();
        let more = names.drop_first();
        assert forall|k: int| 0 <= k < rest.len() implies all_bind(#[trigger] rest[k], more[k]) by {
            assert(all_bind(axes[k + 1], names[k + 1]));
        }
        lemma_product_names(rest, more);
        assert(all_bind(axes[0], names[0]));
        lemma_crossed_names(axes[0], dispense::product(rest), names[0], joined_names(more));
    }
}

proof fn lemma_row_names(axes: Seq<Seq<TupleV>>, names: Seq<Seq<Seq<char>>>, i: int)
    requires
        axes.len() == names.len(),
        0 <= i,
        forall|k: int|
            0 <= k < axes.len() ==> all_bind(#[trigger] axes[k], names[k]) && axes[k].len() > 0,
    ensures
        names_of(dispense::row(axes, i)) == joined_names(names),
    decreases axes.len(),
{
    if axes.len() == 0 {
        assert(names_of(dispense::row(axes, i)) =~= joined_names(names));
    } else {
        let a = axes.drop_last();
        let b = names.drop_last();
        assert forall|k: int| 0 <= k < a.len() implies all_bind(#[trigger] a[k], b[k])
            && a[k].len() > 0 by {
            assert(all_bind(axes[k], names[k]));
        }
        lemma_row_names(a, b, i);
        lemma_joined_names_last(names);
        let n = axes.len() - 1;
        assert(all_bind(axes[n], names[n]));
        let own = axes[n];
        let j = i % (own.len() as int);
        assert(0 <= j < own.len()) by (nonlinear_arith)
            requires
                j == i % (own.len() as int),
                own.len() > 0,
        ;
        lemma_names_joined(dispense::row(a, i), own[j]);
        assert(names_of(own[j]) == names[n]);
    }
}

/// Every tuple of a comprehension without a union binds the names of its
/// clauses, in the order in which the clauses stand.
pub proof fn law_tuples_bind_the_names(c: CompV)
    requires
        uniform(c),
    ensures
        all_bind(compile::tuples_of(c), tile_source::element_names(c)),
    decreases c, 0nat,
{
    let s = compile::tuples_of(c);
    match c {
        CompV::Clause(name, _) => {
            assert forall|i: int| 0 <= i < s.len() implies names_of(#[trigger] s[i]) == seq![
                name,
            ] by {
                assert(names_of(s[i]) =~= seq![name]);
            }
        },
        CompV::Cartesian(children) => {
            lemma_each_bind(children);
            lemma_all_names(children);
            compile::lemma_tuples_of_each(children);
            lemma_product_names(compile::tuples_of_each(children), each_names(children));
        },
        CompV::Zip(children, mode) => {
            lemma_each_bind(children);
            lemma_all_names(children);
            compile::lemma_tuples_of_each(children);
            let axes = compile::tuples_of_each(children);
            lemma_shortest_below(axes);
            assert forall|i: int| 0 <= i < s.len() implies names_of(#[trigger] s[i])
                == tile_source::element_names(c) by {
                assert forall|k: int| 0 <= k < axes.len() implies all_bind(
                    #[trigger] axes[k],
                    each_names(children)[k],
                ) && axes[k].len() > 0 by {}
                lemma_row_names(axes, each_names(children), i);
            }
        },
        CompV::Filter(child, p) => {
            law_tuples_bind_the_names(*child);
            let from = compile::tuples_of(*child);
            tuple_laws::law_filter(*child, p);
            assert(c == CompV::Filter(Box::new(*child), p));
            let at = choose|at: Seq<int>| tuple_laws::keeps(from, p, s, at);
            assert forall|i: int| 0 <= i < s.len() implies names_of(#[trigger] s[i])
                == tile_source::element_names(c) by {
                assert(0 <= at[i] < from.len() && s[i] == from[at[i]]);
            }
        },
        _ => {},
    }
}

proof fn lemma_shortest_below(axes: Seq<Seq<TupleV>>)
    ensures
        forall|k: int|
            0 <= k < axes.len() ==> (#[trigger] axes[k]).len() >= dispense::shortest(axes),
    decreases axes.len(),
{
    if axes.len() > 0 {
        let front = axes.drop_last();
        lemma_shortest_below(front);
        assert forall|k: int| 0 <= k < axes.len() implies (#[trigger] axes[k]).len()
            >= dispense::shortest(axes) by {
            if k < front.len() {
                assert(front[k] == axes[k]);
            }
        }
    }
}

proof fn lemma_each_bind(s: Seq<CompV>)
    requires
        all_uniform(s),
    ensures
        forall|k: int|
            0 <= k < s.len() ==> all_bind(
                #[trigger] compile::tuples_of_each(s)[k],
                each_names(s)[k],
            ),
    decreases s, s.len(),
{
    compile::lemma_tuples_of_each(s);
    if s.len() > 0 {
        lemma_each_bind(s.drop_last());
        law_tuples_bind_the_names(s.last());
        compile::lemma_tuples_of_each(s.drop_last());
        let all = compile::tuples_of_each(s);
        let front = compile::tuples_of_each(s.drop_last());
        assert forall|k: int| 0 <= k < s.len() implies all_bind(
            #[trigger] all[k],
            each_names(s)[k],
        ) by {
            if k < s.len() - 1 {
                assert(front[k] == compile::tuples_of(s.drop_last()[k]));
                assert(all[k] == compile::tuples_of(s[k]));
                assert(all_bind(front[k], each_names(s.drop_last())[k]));
            } else {
                assert(all[k] == compile::tuples_of(s[k]));
            }
        }
    }
}

// ---------------------------------------------------------------------
// Places
// ---------------------------------------------------------------------

/// Whether a comprehension and all it is made of have no more tuples than
/// can be counted with 64 bits, over clauses of written values or ranges,
/// and it cycles nothing that is empty.
pub open spec fn countable(c: CompV) -> bool
    decreases c, 0nat,
{
    &&& compile::tuples_of(c).len() <= u64::MAX
    &&& match c {
        CompV::Clause(_, s) => s is Literal || s is IntRange,
        CompV::Cartesian(children) => children.len() > 0 && all_countable(children),
        CompV::Zip(children, mode) => {
            &&& children.len() > 0
            &&& all_countable(children)
            &&& mode is Cycle ==> dispense::none_empty(compile::tuples_of_each(children))
        },
        CompV::Union(children) => all_countable(children),
        CompV::Filter(_, _) => true,
        CompV::Order(_, _, _) => true,
    }
}

/// Whether each of a run of comprehensions is.
pub open spec fn all_countable(s: Seq<CompV>) -> bool
    decreases s, s.len(),
{
    s.len() > 0 ==> all_countable(s.drop_last()) && countable(s.last())
}

proof fn lemma_volume_append(a: Seq<u64>, b: Seq<u64>)
    ensures
        lattice::volume(a + b) == lattice::volume(a) * lattice::volume(b),
{
    lattice::lemma_volume_split(a + b, a.len() as int);
    assert((a + b).take(a.len() as int) =~= a);
    assert((a + b).skip(a.len() as int) =~= b);
}

proof fn lemma_product_push(axes: Seq<Seq<TupleV>>, last: Seq<TupleV>)
    ensures
        dispense::product(axes.push(last)).len() == dispense::product(axes).len() * last.len(),
    decreases axes.len(),
{
    let all = axes.push(last);
    let unit = seq![Seq::<(Seq<char>, TupleValueV)>::empty()];
    if axes.len() == 0 {
        assert(all.drop_first() =~= Seq::<Seq<TupleV>>::empty());
        assert(dispense::product(all.drop_first()) == unit);
        dispense::lemma_crossed_len(last, unit);
        assert(all[0] == last);
        let z = last.len();
        assert(dispense::product(axes).len() == 1);
        assert(z * 1 == 1 * z) by (nonlinear_arith);
    } else {
        assert(all.drop_first() =~= axes.drop_first().push(last));
        lemma_product_push(axes.drop_first(), last);
        assert(all[0] == axes[0]);
        let p = dispense::product(axes.drop_first());
        let q = dispense::product(all.drop_first());
        dispense::lemma_crossed_len(axes[0], p);
        dispense::lemma_crossed_len(axes[0], q);
        let x = axes[0].len();
        let y = p.len();
        let z = last.len();
        assert(x * (y * z) == (x * y) * z) by (nonlinear_arith);
    }
}

proof fn lemma_grid_counted(s: Seq<CompV>)
    requires
        all_countable(s),
        metadata::all_grid_axes(compile::addressings(s)) is Some,
    ensures
        lattice::volume(metadata::all_grid_axes(compile::addressings(s))->0) == dispense::product(
            compile::tuples_of_each(s),
        ).len(),
    decreases s, s.len(),
{
    if s.len() > 0 {
        let front = s.drop_last();
        let idx = compile::addressings(s);
        assert(idx.drop_last() =~= compile::addressings(front));
        assert(idx.last() == compile::addressing(s.last()));
        lemma_grid_counted(front);
        law_places_counted(s.last());
        let a = metadata::all_grid_axes(compile::addressings(front))->0;
        let b = metadata::grid_axes(idx.last())->0;
        lemma_volume_append(a, b);
        lemma_product_push(compile::tuples_of_each(front), compile::tuples_of(s.last()));
        match compile::addressing(s.last())->0 {
            IndexFnV::Lockstep(n) => lattice::lemma_volume_one(n),
            _ => {},
        }
    }
}

proof fn lemma_sizes_counted(s: Seq<CompV>)
    requires
        all_countable(s),
        compile::discrete_sizes(compile::addressings(s)) is Some,
    ensures
        ({
            let sizes = compile::discrete_sizes(compile::addressings(s))->0;
            let axes = compile::tuples_of_each(s);
            &&& sizes.len() == s.len()
            &&& axes.len() == s.len()
            &&& forall|k: int| 0 <= k < s.len() ==> #[trigger] sizes[k] == axes[k].len()
        }),
    decreases s, s.len(),
{
    compile::lemma_tuples_of_each(s);
    if s.len() > 0 {
        let front = s.drop_last();
        let idx = compile::addressings(s);
        assert(idx.drop_last() =~= compile::addressings(front));
        assert(idx.last() == compile::addressing(s.last()));
        lemma_sizes_counted(front);
        law_places_counted(s.last());
        compile::lemma_tuples_of_each(front);
        let sizes = compile::discrete_sizes(idx)->0;
        let had = compile::discrete_sizes(compile::addressings(front))->0;
        let axes = compile::tuples_of_each(s);
        assert forall|k: int| 0 <= k < s.len() implies #[trigger] sizes[k] == axes[k].len() by {
            if k < front.len() {
                assert(sizes[k] == had[k]);
                assert(compile::tuples_of_each(front)[k] == compile::tuples_of(front[k]));
                assert(axes[k] == compile::tuples_of(s[k]));
            } else {
                assert(axes[k] == compile::tuples_of(s[k]));
            }
        }
    }
}

proof fn lemma_extremes(axes: Seq<Seq<TupleV>>, sizes: Seq<u64>)
    requires
        axes.len() == sizes.len(),
        forall|k: int| 0 <= k < axes.len() ==> #[trigger] sizes[k] == axes[k].len(),
    ensures
        strategies::largest_of(sizes) == dispense::longest(axes),
        compile::smallest_of(sizes) == dispense::shortest(axes),
        strategies::total_of(sizes) == dispense::joined(axes).len(),
    decreases axes.len(),
{
    if axes.len() > 0 {
        let a = axes.drop_last();
        let b = sizes.drop_last();
        assert forall|k: int| 0 <= k < a.len() implies #[trigger] b[k] == a[k].len() by {
            assert(sizes[k] == axes[k].len());
        }
        lemma_extremes(a, b);
        assert(sizes[axes.len() - 1] == axes[axes.len() - 1].len());
        lemma_joined_len(a, axes.last());
        assert(a.push(axes.last()) =~= axes);
    }
}

proof fn lemma_joined_len(axes: Seq<Seq<TupleV>>, last: Seq<TupleV>)
    ensures
        dispense::joined(axes.push(last)).len() == dispense::joined(axes).len() + last.len(),
    decreases axes.len(),
{
    let all = axes.push(last);
    if axes.len() == 0 {
        assert(all.drop_first() =~= Seq::<Seq<TupleV>>::empty());
        assert(dispense::joined(all.drop_first()).len() == 0);
        assert(all[0] == last);
    } else {
        assert(all.drop_first() =~= axes.drop_first().push(last));
        lemma_joined_len(axes.drop_first(), last);
        assert(all[0] == axes[0]);
    }
}

/// The places that a comprehension's addressing counts are as many as its
/// tuples, whenever its structure tells how they are addressed.
pub proof fn law_places_counted(c: CompV)
    requires
        countable(c),
    ensures
        compile::addressing(c) matches Some(idx) ==> {
            &&& strategies::space_size(idx) == compile::tuples_of(c).len()
            &&& !strategies::has_continuous(idx)
        },
    decreases c, 0nat,
{
    match c {
        CompV::Clause(_, s) => {
            lattice::lemma_volume_one(compile::tuples_of(c).len() as u64);
        },
        CompV::Cartesian(children) => {
            compile::lemma_tuples_of_each(children);
            if metadata::all_grid_axes(compile::addressings(children)) is Some {
                lemma_grid_counted(children);
            }
        },
        CompV::Zip(children, mode) => {
            compile::lemma_tuples_of_each(children);
            match compile::discrete_sizes(compile::addressings(children)) {
                Some(sizes) => {
                    lemma_sizes_counted(children);
                    lemma_extremes(compile::tuples_of_each(children), sizes);
                },
                None => {},
            }
        },
        CompV::Union(children) => {
            match compile::discrete_sizes(compile::addressings(children)) {
                Some(sizes) => {
                    lemma_sizes_counted(children);
                    lemma_extremes(compile::tuples_of_each(children), sizes);
                },
                None => {},
            }
        },
        _ => {},
    }
}

} // verus!
