//! Which tuples comprehensions have, and in which order.
use super::compile;
use super::condition;
use super::dispense;
use crate::comprehension::ast::CompV;
use crate::comprehension::metadata;
use crate::comprehension::metadata::IndexFnV;
use crate::comprehension::source;
use crate::comprehension::source::{LiteralV, SourceV};
use crate::comprehension::strategies;
use crate::comprehension::strategies::{diagonal, extrema, lattice, shuffle, Strategy};
use crate::comprehension::strategy::{StrategyName, ZipMode};
use crate::comprehension::tuple::{TupleV, TupleValueV};
use vstd::arithmetic::div_mod::lemma_small_mod;
use vstd::prelude::*;

verus! {

// ---------------------------------------------------------------------
// Clauses
// ---------------------------------------------------------------------

/// A clause over written values has one tuple for each, in their order,
/// with the value under the clause's name.
pub proof fn law_listed_clause(name: Seq<char>, values: Seq<LiteralV>, i: int)
    requires
        0 <= i < values.len(),
    ensures
        compile::tuples_of(CompV::Clause(name, SourceV::Literal(values))).len() == values.len(),
        compile::tuples_of(CompV::Clause(name, SourceV::Literal(values)))[i].len() == 1,
        ({
            let (n, v) = compile::tuples_of(CompV::Clause(name, SourceV::Literal(values)))[i][0];
            &&& n == name
            &&& values[i] matches LiteralV::Int(x) ==> v == TupleValueV::I64(x)
            &&& values[i] matches LiteralV::Float(x) ==> v == TupleValueV::F64(x)
            &&& values[i] matches LiteralV::Text(x) ==> v == TupleValueV::Str(x)
            &&& values[i] matches LiteralV::Bool(x) ==> v == TupleValueV::Bool(x)
        }),
{
}

/// Whether tuples count under a name from `lo` in steps of `by`, and stop
/// before `hi`.
pub open spec fn counts(s: Seq<TupleV>, name: Seq<char>, lo: int, hi: int, by: int) -> bool {
    &&& forall|i: int|
        0 <= i < s.len() ==> lo + i * by < hi && #[trigger] s[i] == seq![
            (name, TupleValueV::I64((lo + i * by) as i64)),
        ]
    &&& lo + s.len() * by >= hi
}

/// A clause over a range counts from its first number in steps of its step,
/// or of one where that is less, and stops before its end.
pub proof fn law_range_clause(name: Seq<char>, lo: i64, hi: i64, step: i64)
    ensures
        step >= 1 ==> counts(
            compile::tuples_of(CompV::Clause(name, SourceV::IntRange(lo, hi, step))),
            name,
            lo as int,
            hi as int,
            step as int,
        ),
        step < 1 ==> counts(
            compile::tuples_of(CompV::Clause(name, SourceV::IntRange(lo, hi, step))),
            name,
            lo as int,
            hi as int,
            1,
        ),
{
    source::law_range_values(lo, hi, step);
    let s = compile::tuples_of(CompV::Clause(name, SourceV::IntRange(lo, hi, step)));
    let by = source::effective_step(step);
    assert forall|i: int| 0 <= i < s.len() implies lo + i * by < hi && #[trigger] s[i] == seq![
        (name, TupleValueV::I64((lo + i * by) as i64)),
    ] by {
        assert(source::range_values(lo, hi, step)[i] == lo + i * by);
    }
    assert(s.len() == source::range_len(lo, hi, step));
    assert(counts(s, name, lo as int, hi as int, by));
}

// ---------------------------------------------------------------------
// Products
// ---------------------------------------------------------------------

/// The lengths of a run of axes.
pub open spec fn lengths(axes: Seq<Seq<TupleV>>) -> Seq<u64> {
    Seq::new(axes.len(), |k: int| axes[k].len() as u64)
}

/// One tuple of each axis, by its index, joined in the axes' order.
pub open spec fn picked(axes: Seq<Seq<TupleV>>, mi: Seq<u64>) -> TupleV
    decreases axes.len(),
{
    if axes.len() == 0 {
        Seq::empty()
    } else {
        axes[0][mi[0] as int] + picked(axes.drop_first(), mi.drop_first())
    }
}

/// The tuples of two axes: the first varies slowest.
proof fn lemma_crossed_at(heads: Seq<TupleV>, tails: Seq<TupleV>, i: int, j: int)
    requires
        0 <= i < heads.len(),
        0 <= j < tails.len(),
    ensures
        0 <= i * tails.len() + j < dispense::crossed(heads, tails).len(),
        dispense::crossed(heads, tails)[i * tails.len() + j] == heads[i] + tails[j],
    decreases heads.len(),
{
    dispense::lemma_crossed_len(heads, tails);
    let n = tails.len() as int;
    assert(0 <= i * n + j < heads.len() * n) by (nonlinear_arith)
        requires
            0 <= i < heads.len(),
            0 <= j < n,
    ;
    if i > 0 {
        let rest = heads.drop_first();
        lemma_crossed_at(rest, tails, i - 1, j);
        dispense::lemma_crossed_len(rest, tails);
        assert(i * n + j == n + ((i - 1) * n + j)) by (nonlinear_arith);
        assert(0 <= (i - 1) * n + j) by (nonlinear_arith)
            requires
                i >= 1,
                n >= 0,
                j >= 0,
        ;
        let whole = dispense::prefixed(heads[0], tails) + dispense::crossed(rest, tails);
        assert(whole[n + ((i - 1) * n + j)] == dispense::crossed(rest, tails)[(i - 1) * n + j]);
        assert(rest[i - 1] == heads[i]);
    }
}

/// The tuple of a product at a position of the grid of its axes.
proof fn lemma_product_at(axes: Seq<Seq<TupleV>>, mi: Seq<u64>)
    requires
        forall|k: int| 0 <= k < axes.len() ==> (#[trigger] axes[k]).len() <= u64::MAX,
        lattice::inside(mi, lengths(axes)),
    ensures
        dispense::product(axes).len() == lattice::volume(lengths(axes)),
        lattice::place(mi, lengths(axes)) < dispense::product(axes).len(),
        dispense::product(axes)[lattice::place(mi, lengths(axes)) as int] == picked(axes, mi),
    decreases axes.len(),
{
    lemma_product_len(axes);
    lattice::law_digits_of_place(mi, lengths(axes));
    if axes.len() > 0 {
        let rest = axes.drop_first();
        let tail = mi.drop_first();
        assert(lengths(axes).drop_first() =~= lengths(rest));
        assert forall|k: int| 0 <= k < rest.len() implies #[trigger] tail[k] < lengths(rest)[k] by {
            assert(mi[k + 1] < lengths(axes)[k + 1]);
        }
        assert forall|k: int| 0 <= k < rest.len() implies (#[trigger] rest[k]).len()
            <= u64::MAX by {
            assert(rest[k] == axes[k + 1]);
        }
        lemma_product_at(rest, tail);
        assert(mi[0] < lengths(axes)[0]);
        assert(axes[0].len() <= u64::MAX);
        lemma_crossed_at(
            axes[0],
            dispense::product(rest),
            mi[0] as int,
            lattice::place(tail, lengths(rest)) as int,
        );
    }
}

proof fn lemma_product_len(axes: Seq<Seq<TupleV>>)
    requires
        forall|k: int| 0 <= k < axes.len() ==> (#[trigger] axes[k]).len() <= u64::MAX,
    ensures
        dispense::product(axes).len() == lattice::volume(lengths(axes)),
    decreases axes.len(),
{
    if axes.len() > 0 {
        let rest = axes.drop_first();
        assert(lengths(axes).drop_first() =~= lengths(rest));
        assert forall|k: int| 0 <= k < rest.len() implies (#[trigger] rest[k]).len()
            <= u64::MAX by {
            assert(rest[k] == axes[k + 1]);
        }
        lemma_product_len(rest);
        dispense::lemma_crossed_len(axes[0], dispense::product(rest));
        assert(axes[0].len() <= u64::MAX);
        assert(lengths(axes)[0] == axes[0].len());
    }
}

/// A product has a tuple for every choice of one tuple of each child, with
/// the bindings in the children's order. They stand in the order of the
/// choices: the last child varies fastest.
pub proof fn law_product(children: Seq<CompV>, mi: Seq<u64>)
    requires
        children.len() > 0,
        forall|k: int|
            0 <= k < children.len() ==> compile::tuples_of(#[trigger] children[k]).len() <= u64::MAX,
        mi.len() == children.len(),
        forall|k: int|
            0 <= k < children.len() ==> mi[k] < compile::tuples_of(#[trigger] children[k]).len(),
    ensures
        ({
            let axes = compile::tuples_of_each(children);
            let s = compile::tuples_of(CompV::Cartesian(children));
            &&& axes.len() == children.len()
            &&& forall|k: int|
                0 <= k < children.len() ==> #[trigger] axes[k] == compile::tuples_of(children[k])
            &&& s.len() == lattice::volume(lengths(axes))
            &&& lattice::place(mi, lengths(axes)) < s.len()
            &&& s[lattice::place(mi, lengths(axes)) as int] == picked(axes, mi)
        }),
{
    let axes = compile::tuples_of_each(children);
    compile::lemma_tuples_of_each(children);
    assert forall|k: int| 0 <= k < axes.len() implies (#[trigger] axes[k]).len() <= u64::MAX by {
        assert(axes[k] == compile::tuples_of(children[k]));
    }
    assert forall|k: int| 0 <= k < lengths(axes).len() implies #[trigger] mi[k] < lengths(
        axes,
    )[k] by {
        assert(axes[k] == compile::tuples_of(children[k]));
        assert(axes[k].len() <= u64::MAX);
    }
    lemma_product_at(axes, mi);
}

/// Of two children each tuple of the first comes with each of the second,
/// the second varying fastest.
pub proof fn law_product_of_two(a: CompV, b: CompV, i: int, j: int)
    requires
        0 <= i < compile::tuples_of(a).len(),
        0 <= j < compile::tuples_of(b).len(),
    ensures
        ({
            let s = compile::tuples_of(CompV::Cartesian(seq![a, b]));
            let n = compile::tuples_of(b).len();
            &&& s.len() == compile::tuples_of(a).len() * n
            &&& 0 <= i * n + j < s.len()
            &&& s[i * n + j] == compile::tuples_of(a)[i] + compile::tuples_of(b)[j]
        }),
{
    let children = seq![a, b];
    let axes = compile::tuples_of_each(children);
    compile::lemma_tuples_of_each(children);
    assert(axes[0] == compile::tuples_of(children[0]));
    assert(axes[1] == compile::tuples_of(children[1]));
    let one = axes.drop_first();
    assert(one[0] == compile::tuples_of(b));
    assert(one.drop_first() =~= Seq::<Seq<TupleV>>::empty());
    let unit = seq![Seq::<(Seq<char>, TupleValueV)>::empty()];
    assert(dispense::product(one.drop_first()) == unit);
    let last = dispense::crossed(one[0], unit);
    assert(dispense::product(one) == last);
    dispense::lemma_crossed_len(one[0], unit);
    assert(one[0].len() * 1 == one[0].len());
    assert forall|k: int| 0 <= k < one[0].len() implies #[trigger] last[k] == one[0][k] by {
        lemma_crossed_at(one[0], unit, k, 0);
        assert(one[0][k] + unit[0] =~= one[0][k]);
    }
    assert(last =~= one[0]);
    lemma_crossed_at(axes[0], last, i, j);
    dispense::lemma_crossed_len(axes[0], last);
}

// ---------------------------------------------------------------------
// Zips
// ---------------------------------------------------------------------

proof fn lemma_longest(axes: Seq<Seq<TupleV>>)
    ensures
        forall|k: int| 0 <= k < axes.len() ==> (#[trigger] axes[k]).len() <= dispense::longest(axes),
        axes.len() > 0 && dispense::none_empty(axes) ==> exists|k: int|
            0 <= k < axes.len() && (#[trigger] axes[k]).len() == dispense::longest(axes),
    decreases axes.len(),
{
    if axes.len() > 0 {
        let front = axes.drop_last();
        lemma_longest(front);
        assert forall|k: int| 0 <= k < axes.len() implies (#[trigger] axes[k]).len()
            <= dispense::longest(axes) by {
            if k < front.len() {
                assert(front[k] == axes[k]);
            }
        }
        if dispense::none_empty(axes) {
            assert(dispense::none_empty(front)) by {
                assert forall|k: int| 0 <= k < front.len() implies (#[trigger] front[k]).len()
                    > 0 by {
                    assert(front[k] == axes[k]);
                }
            }
            assert(axes[axes.len() - 1].len() > 0);
            if axes.last().len() <= dispense::longest(front) {
                assert(front.len() > 0);
                let k = choose|k: int|
                    0 <= k < front.len() && (#[trigger] front[k]).len() == dispense::longest(front);
                assert(axes[k] == front[k]);
            } else {
                assert(axes[axes.len() - 1].len() == dispense::longest(axes));
            }
        }
    }
}

proof fn lemma_shortest(axes: Seq<Seq<TupleV>>)
    ensures
        forall|k: int|
            0 <= k < axes.len() ==> (#[trigger] axes[k]).len() >= dispense::shortest(axes),
        axes.len() > 0 ==> exists|k: int|
            0 <= k < axes.len() && (#[trigger] axes[k]).len() == dispense::shortest(axes),
    decreases axes.len(),
{
    if axes.len() > 0 {
        let front = axes.drop_last();
        lemma_shortest(front);
        assert forall|k: int| 0 <= k < axes.len() implies (#[trigger] axes[k]).len()
            >= dispense::shortest(axes) by {
            if k < front.len() {
                assert(front[k] == axes[k]);
            }
        }
        if axes.len() > 1 && axes.last().len() >= dispense::shortest(front) {
            let k = choose|k: int|
                0 <= k < front.len() && (#[trigger] front[k]).len() == dispense::shortest(front);
            assert(axes[k] == front[k]);
        } else {
            assert(axes[axes.len() - 1].len() == dispense::shortest(axes));
        }
    }
}

/// The bindings of an axis stand in a row behind those of the axes before
/// it.
proof fn lemma_row_part(axes: Seq<Seq<TupleV>>, i: int, k: int)
    requires
        0 <= k < axes.len(),
    ensures
        ({
            let part = axes[k][i % (axes[k].len() as int)];
            let from = dispense::row(axes.take(k), i).len() as int;
            &&& from + part.len() <= dispense::row(axes, i).len()
            &&& dispense::row(axes, i).subrange(from, from + part.len()) == part
        }),
    decreases axes.len(),
{
    let front = axes.drop_last();
    let part = axes[k][i % (axes[k].len() as int)];
    let from = dispense::row(axes.take(k), i).len() as int;
    if k == axes.len() - 1 {
        assert(axes.take(k) =~= front);
        assert(dispense::row(axes, i).subrange(from, from + part.len()) =~= part);
    } else {
        assert(front[k] == axes[k]);
        assert(front.take(k) =~= axes.take(k));
        lemma_row_part(front, i, k);
        assert(dispense::row(axes, i).subrange(from, from + part.len()) =~= dispense::row(
            front,
            i,
        ).subrange(from, from + part.len()));
    }
}

/// Whether a tuple has a run of bindings from a place on.
pub open spec fn holds_at(t: TupleV, from: int, part: TupleV) -> bool {
    0 <= from && from + part.len() <= t.len() && t.subrange(from, from + part.len()) == part
}

/// Where the bindings of a child begin in a row of a zip.
pub open spec fn row_start(axes: Seq<Seq<TupleV>>, i: int, k: int) -> int
    decreases k,
{
    if k <= 0 {
        0
    } else {
        row_start(axes, i, k - 1) + axes[k - 1][i % (axes[k - 1].len() as int)].len()
    }
}

proof fn lemma_row_start(axes: Seq<Seq<TupleV>>, i: int, k: int)
    requires
        0 <= k <= axes.len(),
    ensures
        row_start(axes, i, k) == dispense::row(axes.take(k), i).len(),
    decreases k,
{
    if k > 0 {
        lemma_row_start(axes, i, k - 1);
        assert(axes.take(k).drop_last() =~= axes.take(k - 1));
        assert(axes.take(k).last() == axes[k - 1]);
    }
}

/// A cycled zip of children none of which is empty goes on until the
/// longest ends: it has as many tuples as one of them, and no child has
/// more. Its tuple at a place joins, in their order, the tuples of the
/// children at that place, a shorter child beginning again.
pub proof fn law_cycled_zip(children: Seq<CompV>, i: int, k: int)
    requires
        forall|c: int|
            0 <= c < children.len() ==> compile::tuples_of(#[trigger] children[c]).len() > 0,
        0 <= k < children.len(),
        0 <= i < compile::tuples_of(CompV::Zip(children, ZipMode::Cycle)).len(),
    ensures
        ({
            let s = compile::tuples_of(CompV::Zip(children, ZipMode::Cycle));
            let own = compile::tuples_of(children[k]);
            let part = own[i % (own.len() as int)];
            let from = row_start(compile::tuples_of_each(children), i, k);
            &&& own.len() <= s.len()
            &&& exists|c: int|
                0 <= c < children.len() && compile::tuples_of(#[trigger] children[c]).len()
                    == s.len()
            &&& holds_at(s[i], from, part)
        }),
{
    let axes = compile::tuples_of_each(children);
    compile::lemma_tuples_of_each(children);
    lemma_longest(axes);
    lemma_row_part(axes, i, k);
    lemma_row_start(axes, i, k);
    assert forall|c: int| 0 <= c < axes.len() implies (#[trigger] axes[c]).len() > 0 by {
        assert(axes[c] == compile::tuples_of(children[c]));
    }
    assert(axes[k] == compile::tuples_of(children[k]));
    let c = choose|c: int|
        0 <= c < axes.len() && (#[trigger] axes[c]).len() == dispense::longest(axes);
    assert(axes[c] == compile::tuples_of(children[c]));
}

/// Every tuple of every child takes part in a cycled zip.
pub proof fn law_cycled_zip_covers(children: Seq<CompV>, j: int, k: int)
    requires
        forall|c: int|
            0 <= c < children.len() ==> compile::tuples_of(#[trigger] children[c]).len() > 0,
        0 <= k < children.len(),
        0 <= j < compile::tuples_of(children[k]).len(),
    ensures
        ({
            let s = compile::tuples_of(CompV::Zip(children, ZipMode::Cycle));
            let part = compile::tuples_of(children[k])[j];
            let from = row_start(compile::tuples_of_each(children), j, k);
            &&& j < s.len()
            &&& holds_at(s[j], from, part)
        }),
{
    let axes = compile::tuples_of_each(children);
    compile::lemma_tuples_of_each(children);
    lemma_longest(axes);
    assert forall|c: int| 0 <= c < axes.len() implies (#[trigger] axes[c]).len() > 0 by {
        assert(axes[c] == compile::tuples_of(children[c]));
    }
    assert(axes[k] == compile::tuples_of(children[k]));
    law_cycled_zip(children, j, k);
    lemma_small_mod(j as nat, compile::tuples_of(children[k]).len());
}

/// A cycled zip with an empty child is empty.
pub proof fn law_cycled_zip_of_nothing(children: Seq<CompV>, k: int)
    requires
        0 <= k < children.len(),
        compile::tuples_of(children[k]).len() == 0,
    ensures
        compile::tuples_of(CompV::Zip(children, ZipMode::Cycle)).len() == 0,
{
    compile::lemma_tuples_of_each(children);
    assert(compile::tuples_of_each(children)[k].len() == 0);
}

/// A zip that is not cycled ends with its shortest child: it has as many
/// tuples as one of them, and no child has fewer. Its tuple at a place
/// joins, in their order, the tuples of the children at that place.
pub proof fn law_plain_zip(children: Seq<CompV>, mode: ZipMode, k: int)
    requires
        !(mode is Cycle),
        0 <= k < children.len(),
    ensures
        ({
            let s = compile::tuples_of(CompV::Zip(children, mode));
            let own = compile::tuples_of(children[k]);
            &&& s.len() <= own.len()
            &&& exists|c: int|
                0 <= c < children.len() && compile::tuples_of(#[trigger] children[c]).len()
                    == s.len()
            &&& forall|i: int|
                0 <= i < s.len() ==> holds_at(
                    #[trigger] s[i],
                    row_start(compile::tuples_of_each(children), i, k),
                    own[i],
                )
        }),
{
    let axes = compile::tuples_of_each(children);
    let s = compile::tuples_of(CompV::Zip(children, mode));
    let own = compile::tuples_of(children[k]);
    compile::lemma_tuples_of_each(children);
    lemma_shortest(axes);
    assert(axes[k] == own);
    let c = choose|c: int|
        0 <= c < axes.len() && (#[trigger] axes[c]).len() == dispense::shortest(axes);
    assert(axes[c] == compile::tuples_of(children[c]));
    assert forall|i: int| 0 <= i < s.len() implies holds_at(
        #[trigger] s[i],
        row_start(axes, i, k),
        own[i],
    ) by {
        lemma_row_part(axes, i, k);
        lemma_row_start(axes, i, k);
        lemma_small_mod(i as nat, own.len());
    }
}

/// A row of a zip holds the bindings of the children and no others.
pub proof fn law_zip_rows_whole(children: Seq<CompV>, mode: ZipMode, i: int)
    requires
        0 <= i < compile::tuples_of(CompV::Zip(children, mode)).len(),
    ensures
        compile::tuples_of(CompV::Zip(children, mode))[i].len() == row_start(
            compile::tuples_of_each(children),
            i,
            children.len() as int,
        ),
{
    let axes = compile::tuples_of_each(children);
    compile::lemma_tuples_of_each(children);
    lemma_row_start(axes, i, children.len() as int);
    assert(axes.take(axes.len() as int) =~= axes);
}

// ---------------------------------------------------------------------
// Unions
// ---------------------------------------------------------------------

/// How many tuples the first `k` children have together.
pub open spec fn count_before(children: Seq<CompV>, k: int) -> nat
    decreases k,
{
    if k <= 0 {
        0
    } else {
        count_before(children, k - 1) + compile::tuples_of(children[k - 1]).len()
    }
}

proof fn lemma_joined_push(axes: Seq<Seq<TupleV>>, last: Seq<TupleV>)
    ensures
        dispense::joined(axes.push(last)) == dispense::joined(axes) + last,
    decreases axes.len(),
{
    let all = axes.push(last);
    if axes.len() == 0 {
        assert(all.drop_first() =~= Seq::<Seq<TupleV>>::empty());
        assert(dispense::joined(all.drop_first()) =~= Seq::<TupleV>::empty());
        assert(all[0] == last);
        assert(dispense::joined(all) =~= dispense::joined(axes) + last);
    } else {
        assert(all.drop_first() =~= axes.drop_first().push(last));
        lemma_joined_push(axes.drop_first(), last);
        assert(all[0] == axes[0]);
        assert(axes[0] + (dispense::joined(axes.drop_first()) + last) =~= (axes[0]
            + dispense::joined(axes.drop_first())) + last);
    }
}

proof fn lemma_count_before(children: Seq<CompV>, k: int)
    requires
        0 <= k <= children.len(),
    ensures
        dispense::joined(compile::tuples_of_each(children).take(k)).len() == count_before(
            children,
            k,
        ),
    decreases k,
{
    let axes = compile::tuples_of_each(children);
    compile::lemma_tuples_of_each(children);
    if k == 0 {
        assert(axes.take(0) =~= Seq::<Seq<TupleV>>::empty());
    } else {
        lemma_count_before(children, k - 1);
        assert(axes[k - 1] == compile::tuples_of(children[k - 1]));
        assert(axes.take(k) =~= axes.take(k - 1).push(axes[k - 1]));
        lemma_joined_push(axes.take(k - 1), axes[k - 1]);
    }
}

/// A union has the tuples of its children one after the other: those of a
/// child begin where those of the children before it end.
pub proof fn law_union(children: Seq<CompV>, k: int, i: int)
    requires
        0 <= k < children.len(),
        0 <= i < compile::tuples_of(children[k]).len(),
    ensures
        ({
            let s = compile::tuples_of(CompV::Union(children));
            &&& s.len() == count_before(children, children.len() as int)
            &&& count_before(children, k) + i < s.len()
            &&& s[count_before(children, k) + i] == compile::tuples_of(children[k])[i]
        }),
{
    let axes = compile::tuples_of_each(children);
    compile::lemma_tuples_of_each(children);
    assert(axes[k] == compile::tuples_of(children[k]));
    dispense::law_union_drains(axes, k, i);
    lemma_count_before(children, k);
    lemma_count_before(children, children.len() as int);
    assert(axes.take(axes.len() as int) =~= axes);
}

// ---------------------------------------------------------------------
// Filters
// ---------------------------------------------------------------------

/// Whether places are listed in ascending order.
pub open spec fn ascending(at: Seq<int>) -> bool {
    forall|i: int, j: int| 0 <= i < j < at.len() ==> #[trigger] at[i] < #[trigger] at[j]
}

/// Whether `out` has of `s` exactly what stands where the condition holds,
/// at the places `at`.
pub open spec fn keeps(s: Seq<TupleV>, p: Seq<char>, out: Seq<TupleV>, at: Seq<int>) -> bool {
    &&& at.len() == out.len()
    &&& ascending(at)
    &&& forall|i: int| 0 <= i < out.len() ==> 0 <= #[trigger] at[i] < s.len() && out[i] == s[at[i]]
    &&& forall|j: int|
        0 <= j < s.len() ==> (condition::holds(p, #[trigger] s[j]) <==> at.contains(j))
}

proof fn lemma_kept(s: Seq<TupleV>, p: Seq<char>) -> (at: Seq<int>)
    ensures
        keeps(s, p, dispense::kept(s, p), at),
    decreases s.len(),
{
    if s.len() == 0 {
        Seq::empty()
    } else {
        let front = s.drop_last();
        let had = lemma_kept(front, p);
        let one = seq![s.last()];
        assert(s =~= front + one);
        dispense::lemma_kept_concat(front, one, p);
        assert(one.drop_first() =~= Seq::<TupleV>::empty());
        assert(dispense::kept(one.drop_first(), p) =~= Seq::<TupleV>::empty());
        assert(one[0] == s.last());
        let n = s.len() - 1;
        if condition::holds(p, s.last()) {
            let at = had.push(n);
            assert(dispense::kept(one, p) =~= one);
            let out = dispense::kept(s, p);
            assert(out =~= dispense::kept(front, p).push(s.last()));
            assert forall|i: int| 0 <= i < out.len() implies 0 <= #[trigger] at[i] < s.len()
                && out[i] == s[at[i]] by {
                if i < had.len() {
                    assert(at[i] == had[i]);
                    assert(front[had[i]] == s[had[i]]);
                }
            }
            assert(ascending(at)) by {
                assert forall|i: int, j: int| 0 <= i < j < at.len() implies #[trigger] at[i]
                    < #[trigger] at[j] by {
                    assert(at[i] == had[i]);
                    if j < had.len() {
                        assert(at[j] == had[j]);
                    }
                }
            }
            assert forall|j: int| 0 <= j < s.len() implies (condition::holds(p, #[trigger] s[j])
                <==> at.contains(j)) by {
                if j < n {
                    assert(front[j] == s[j]);
                    if had.contains(j) {
                        let i = choose|i: int| 0 <= i < had.len() && had[i] == j;
                        assert(at[i] == j);
                    }
                    if at.contains(j) {
                        let i = choose|i: int| 0 <= i < at.len() && at[i] == j;
                        assert(had[i] == j);
                    }
                } else {
                    assert(at[had.len() as int] == n);
                }
            }
            at
        } else {
            assert(dispense::kept(one, p) =~= Seq::<TupleV>::empty());
            let out = dispense::kept(s, p);
            assert(out =~= dispense::kept(front, p));
            assert forall|i: int| 0 <= i < out.len() implies 0 <= #[trigger] had[i] < s.len()
                && out[i] == s[had[i]] by {
                assert(front[had[i]] == s[had[i]]);
            }
            assert forall|j: int| 0 <= j < s.len() implies (condition::holds(p, #[trigger] s[j])
                <==> had.contains(j)) by {
                if j < n {
                    assert(front[j] == s[j]);
                } else if had.contains(j) {
                    let i = choose|i: int| 0 <= i < had.len() && had[i] == j;
                    assert(0 <= had[i] < front.len());
                }
            }
            had
        }
    }
}

/// A filter keeps exactly the tuples for which its condition holds, in
/// their order, each as often as it is there.
pub proof fn law_filter(child: CompV, p: Seq<char>)
    ensures
        exists|at: Seq<int>|
            keeps(
                compile::tuples_of(child),
                p,
                compile::tuples_of(CompV::Filter(Box::new(child), p)),
                at,
            ),
{
    let at = lemma_kept(compile::tuples_of(child), p);
    assert(keeps(
        compile::tuples_of(child),
        p,
        compile::tuples_of(CompV::Filter(Box::new(child), p)),
        at,
    ));
}

// ---------------------------------------------------------------------
// Orders
// ---------------------------------------------------------------------

/// How many tuples are left of so many.
pub open spec fn cut(n: nat, truncation: Option<u64>) -> nat {
    match truncation {
        Some(k) => if (k as nat) < n {
            k as nat
        } else {
            n
        },
        None => n,
    }
}

/// The natural order leaves the tuples as they come, the first ones where
/// it is cut.
pub proof fn law_natural_order(child: CompV, truncation: Option<u64>)
    ensures
        ({
            let s = compile::tuples_of(child);
            let out = compile::tuples_of(
                CompV::Order(Box::new(child), StrategyName::Lex, truncation),
            );
            out == s.take(cut(s.len(), truncation) as int)
        }),
{
    let s = compile::tuples_of(child);
    assert(s.take(s.len() as int) =~= s);
}

/// The reversed order has the last tuple first; it is cut after it is
/// reversed.
pub proof fn law_reversed_order(child: CompV, truncation: Option<u64>)
    ensures
        ({
            let s = compile::tuples_of(child);
            let out = compile::tuples_of(
                CompV::Order(Box::new(child), StrategyName::ReverseLex, truncation),
            );
            &&& out.len() == cut(s.len(), truncation)
            &&& forall|i: int| 0 <= i < out.len() ==> #[trigger] out[i] == s[s.len() - 1 - i]
        }),
{
}

/// Whether the tuples of a child stand on a grid: each position has its
/// tuple, in lexicographic order.
pub open spec fn on_grid(child: CompV, sizes: Seq<u64>) -> bool {
    &&& sizes.len() > 0
    &&& compile::tuples_of(child).len() == lattice::volume(sizes)
    &&& lattice::volume(sizes) <= u64::MAX
    &&& dispense::addressed(compile::addressing(child), compile::tuples_of(child).len())
        == IndexFnV::Lattice(sizes)
}

/// Whether `out` visits positions of a grid one after the other, none of
/// them twice.
pub open spec fn visits(s: Seq<TupleV>, sizes: Seq<u64>, out: Seq<TupleV>, walk: Seq<Seq<u64>>) -> bool {
    &&& walk.len() == out.len()
    &&& walk.no_duplicates()
    &&& forall|i: int|
        0 <= i < walk.len() ==> lattice::inside(#[trigger] walk[i], sizes) && lattice::place(
            walk[i],
            sizes,
        ) < s.len() && out[i] == s[lattice::place(walk[i], sizes) as int]
}

/// The sum of the indices of a position.
pub open spec fn sum(mi: Seq<u64>) -> nat
    decreases mi.len(),
{
    if mi.len() == 0 {
        0
    } else {
        sum(mi.drop_last()) + mi.last() as nat
    }
}

/// On how many axes a position is neither first nor last.
pub open spec fn between(mi: Seq<u64>, sizes: Seq<u64>) -> nat
    decreases mi.len(),
{
    if mi.len() == 0 || sizes.len() == 0 {
        0
    } else {
        between(mi.drop_first(), sizes.drop_first()) + if 0 < mi[0] && mi[0] + 1 < sizes[0] {
            1nat
        } else {
            0nat
        }
    }
}

proof fn lemma_sum(mi: Seq<u64>)
    ensures
        sum(mi) == strategies::total_of(mi),
    decreases mi.len(),
{
    if mi.len() > 0 {
        lemma_sum(mi.drop_last());
    }
}

proof fn lemma_between(mi: Seq<u64>, sizes: Seq<u64>)
    requires
        lattice::inside(mi, sizes),
    ensures
        between(mi, sizes) == extrema::interior_axes(mi, sizes),
    decreases mi.len(),
{
    if mi.len() > 0 {
        let x = mi.drop_first();
        let y = sizes.drop_first();
        assert forall|k: int| 0 <= k < y.len() implies #[trigger] x[k] < y[k] by {
            assert(mi[k + 1] < sizes[k + 1]);
        }
        lemma_between(x, y);
        assert(mi[0] < sizes[0]);
    }
}

/// What is looked up along a walk inside the grid.
proof fn lemma_looked_up(walk: Seq<Seq<u64>>, sizes: Seq<u64>, s: Seq<TupleV>)
    requires
        s.len() == lattice::volume(sizes),
        forall|i: int| 0 <= i < walk.len() ==> lattice::inside(#[trigger] walk[i], sizes),
    ensures
        ({
            let out = strategies::looked_up(walk, IndexFnV::Lattice(sizes), s);
            &&& out.len() == walk.len()
            &&& forall|i: int|
                0 <= i < walk.len() ==> lattice::place(#[trigger] walk[i], sizes) < s.len()
                    && out[i] == s[lattice::place(walk[i], sizes) as int]
        }),
    decreases walk.len(),
{
    if walk.len() > 0 {
        let front = walk.drop_last();
        assert forall|i: int| 0 <= i < front.len() implies lattice::inside(
            #[trigger] front[i],
            sizes,
        ) by {
            assert(front[i] == walk[i]);
        }
        lemma_looked_up(front, sizes, s);
        assert(lattice::inside(walk[walk.len() - 1], sizes));
        lattice::law_digits_of_place(walk.last(), sizes);
        let out = strategies::looked_up(walk, IndexFnV::Lattice(sizes), s);
        assert forall|i: int| 0 <= i < walk.len() implies lattice::place(#[trigger] walk[i], sizes)
            < s.len() && out[i] == s[lattice::place(walk[i], sizes) as int] by {
            if i < front.len() {
                assert(front[i] == walk[i]);
            }
        }
    }
}

/// A rearrangement of the positions of a grid holds each of them once.
proof fn lemma_rearranged(walk: Seq<Seq<u64>>, sizes: Seq<u64>)
    requires
        walk.to_multiset() =~= lattice::positions(sizes).to_multiset(),
    ensures
        walk.len() == lattice::volume(sizes),
        walk.no_duplicates(),
        forall|i: int| 0 <= i < walk.len() ==> lattice::inside(#[trigger] walk[i], sizes),
{
    broadcast use vstd::seq_lib::group_to_multiset_ensures;

    let all = lattice::positions(sizes);
    vstd::seq_lib::to_multiset_len(all);
    vstd::seq_lib::to_multiset_len(walk);
    lattice::law_positions_distinct(sizes);
    all.lemma_multiset_has_no_duplicates();
    walk.lemma_multiset_has_no_duplicates_conv();
    assert forall|i: int| 0 <= i < walk.len() implies lattice::inside(#[trigger] walk[i], sizes) by {
        vstd::seq_lib::to_multiset_contains(walk, walk[i]);
        vstd::seq_lib::to_multiset_contains(all, walk[i]);
        let j = choose|j: int| 0 <= j < all.len() && all[j] == walk[i];
        lattice::law_place_of_digits(j as nat, sizes);
    }
}

/// A beginning of a walk is a walk.
proof fn lemma_walk_cut(walk: Seq<Seq<u64>>, n: int)
    requires
        0 <= n <= walk.len(),
        walk.no_duplicates(),
    ensures
        walk.take(n).no_duplicates(),
{
    let t = walk.take(n);
    assert forall|i: int, j: int| 0 <= i < t.len() && 0 <= j < t.len() && i != j implies t[i]
        != t[j] by {
        assert(t[i] == walk[i] && t[j] == walk[j]);
    }
}

/// The diagonal order visits the positions of a grid by ascending index
/// sums, the antidiagonal order by descending ones; among those of one sum
/// the lexicographically earlier comes first. Without a limit all positions
/// are visited, with one as many as it says.
pub proof fn law_diagonal_orders(child: CompV, sizes: Seq<u64>, truncation: Option<u64>)
    requires
        on_grid(child, sizes),
    ensures
        exists|walk: Seq<Seq<u64>>|
            #![trigger visits(
                compile::tuples_of(child),
                sizes,
                compile::tuples_of(
                    CompV::Order(Box::new(child), StrategyName::Diagonal, truncation),
                ),
                walk,
            )]
            {
                &&& visits(
                    compile::tuples_of(child),
                    sizes,
                    compile::tuples_of(
                        CompV::Order(Box::new(child), StrategyName::Diagonal, truncation),
                    ),
                    walk,
                )
                &&& walk.len() == cut(lattice::volume(sizes), truncation)
                &&& sums_rise(walk)
            },
        exists|walk: Seq<Seq<u64>>|
            #![trigger visits(
                compile::tuples_of(child),
                sizes,
                compile::tuples_of(
                    CompV::Order(Box::new(child), StrategyName::Antidiagonal, truncation),
                ),
                walk,
            )]
            {
                &&& visits(
                    compile::tuples_of(child),
                    sizes,
                    compile::tuples_of(
                        CompV::Order(Box::new(child), StrategyName::Antidiagonal, truncation),
                    ),
                    walk,
                )
                &&& walk.len() == cut(lattice::volume(sizes), truncation)
                &&& sums_fall(walk)
            },
{
    lemma_diagonal(child, sizes, truncation, false);
    lemma_diagonal(child, sizes, truncation, true);
}

/// Whether index sums never fall along a walk, and equal ones are in
/// lexicographic order.
pub open spec fn sums_rise(walk: Seq<Seq<u64>>) -> bool {
    forall|i: int, j: int|
        0 <= i < j < walk.len() ==> {
            ||| sum(#[trigger] walk[i]) < sum(#[trigger] walk[j])
            ||| sum(walk[i]) == sum(walk[j]) && lattice::earlier(walk[i], walk[j])
        }
}

/// Whether index sums never rise along a walk, and equal ones are in
/// lexicographic order.
pub open spec fn sums_fall(walk: Seq<Seq<u64>>) -> bool {
    forall|i: int, j: int|
        0 <= i < j < walk.len() ==> {
            ||| sum(#[trigger] walk[i]) > sum(#[trigger] walk[j])
            ||| sum(walk[i]) == sum(walk[j]) && lattice::earlier(walk[i], walk[j])
        }
}

proof fn lemma_diagonal(
    child: CompV,
    sizes: Seq<u64>,
    truncation: Option<u64>,
    descending: bool,
) -> (walk: Seq<Seq<u64>>)
    requires
        on_grid(child, sizes),
    ensures
        ({
            let name = if descending {
                StrategyName::Antidiagonal
            } else {
                StrategyName::Diagonal
            };
            &&& visits(
                compile::tuples_of(child),
                sizes,
                compile::tuples_of(CompV::Order(Box::new(child), name, truncation)),
                walk,
            )
            &&& walk.len() == cut(lattice::volume(sizes), truncation)
            &&& if descending {
                sums_fall(walk)
            } else {
                sums_rise(walk)
            }
        }),
{
    let s = compile::tuples_of(child);
    let all = diagonal::by_sum(sizes, descending);
    diagonal::law_by_sum_permutes(sizes, descending);
    lemma_rearranged(all, sizes);
    let n = cut(lattice::volume(sizes), truncation) as int;
    let walk = all.take(n);
    assert(all.take(all.len() as int) =~= all);
    assert(walk == lattice::limited(all, truncation));
    lemma_walk_cut(all, n);
    assert forall|i: int| 0 <= i < walk.len() implies lattice::inside(#[trigger] walk[i], sizes) by {
        assert(walk[i] == all[i]);
    }
    lemma_looked_up(walk, sizes, s);
    assert forall|i: int, j: int| 0 <= i < j < walk.len() implies if descending {
        ||| sum(#[trigger] walk[i]) > sum(#[trigger] walk[j])
        ||| sum(walk[i]) == sum(walk[j]) && lattice::earlier(walk[i], walk[j])
    } else {
        ||| sum(walk[i]) < sum(walk[j])
        ||| sum(walk[i]) == sum(walk[j]) && lattice::earlier(walk[i], walk[j])
    } by {
        assert(walk[i] == all[i] && walk[j] == all[j]);
        lemma_sum(walk[i]);
        lemma_sum(walk[j]);
        diagonal::law_sums_monotone(sizes, descending, i, j);
        if sum(walk[i]) == sum(walk[j]) {
            diagonal::law_equal_sums_in_order(sizes, descending, i, j);
        }
    }
    walk
}

/// Whether a walk goes from the corners inwards.
pub open spec fn goes_inwards(walk: Seq<Seq<u64>>, sizes: Seq<u64>) -> bool {
    forall|i: int, j: int|
        0 <= i < j < walk.len() ==> between(#[trigger] walk[i], sizes) <= between(
            #[trigger] walk[j],
            sizes,
        )
}

/// The order by extremes visits every position of a grid, the corners
/// first: the number of axes on which a position is neither first nor last
/// never falls.
pub proof fn law_extremes_first(child: CompV, sizes: Seq<u64>)
    requires
        on_grid(child, sizes),
    ensures
        exists|walk: Seq<Seq<u64>>|
            #![trigger visits(
                compile::tuples_of(child),
                sizes,
                compile::tuples_of(CompV::Order(Box::new(child), StrategyName::Extrema, None)),
                walk,
            )]
            {
                &&& visits(
                    compile::tuples_of(child),
                    sizes,
                    compile::tuples_of(CompV::Order(Box::new(child), StrategyName::Extrema, None)),
                    walk,
                )
                &&& walk.len() == lattice::volume(sizes)
                &&& goes_inwards(walk, sizes)
            },
{
    let s = compile::tuples_of(child);
    let walk = extrema::strata(sizes, None);
    extrema::law_strata_permute(sizes);
    lemma_rearranged(walk, sizes);
    lemma_looked_up(walk, sizes, s);
    assert forall|i: int, j: int| 0 <= i < j < walk.len() implies between(
        #[trigger] walk[i],
        sizes,
    ) <= between(#[trigger] walk[j], sizes) by {
        lemma_between(walk[i], sizes);
        lemma_between(walk[j], sizes);
        extrema::law_strata_ascend(sizes, i, j);
    }
    assert(visits(
        s,
        sizes,
        compile::tuples_of(CompV::Order(Box::new(child), StrategyName::Extrema, None)),
        walk,
    ));
}

/// How many strata a walk goes through: it enters another one wherever the
/// number of axes changes on which it is neither first nor last.
pub open spec fn strata_of(walk: Seq<Seq<u64>>, sizes: Seq<u64>) -> nat
    decreases walk.len(),
{
    if walk.len() == 0 {
        0
    } else {
        strata_of(walk.drop_last(), sizes) + if walk.len() >= 2 && between(
            walk[walk.len() - 2],
            sizes,
        ) == between(walk.last(), sizes) {
            0nat
        } else {
            1nat
        }
    }
}

proof fn lemma_strata_of(walk: Seq<Seq<u64>>, sizes: Seq<u64>)
    requires
        forall|i: int| 0 <= i < walk.len() ==> lattice::inside(#[trigger] walk[i], sizes),
    ensures
        strata_of(walk, sizes) == extrema::runs(walk, extrema::stratum(sizes)),
    decreases walk.len(),
{
    if walk.len() > 0 {
        let front = walk.drop_last();
        assert forall|i: int| 0 <= i < front.len() implies lattice::inside(
            #[trigger] front[i],
            sizes,
        ) by {
            assert(front[i] == walk[i]);
        }
        lemma_strata_of(front, sizes);
        assert(lattice::inside(walk[walk.len() - 1], sizes));
        lemma_between(walk.last(), sizes);
        if walk.len() >= 2 {
            assert(lattice::inside(walk[walk.len() - 2], sizes));
            lemma_between(walk[walk.len() - 2], sizes);
        }
    }
}

/// Whether a walk goes through at most `n` strata of a grid from the corners
/// inwards, and one more position of the whole walk would be one more.
pub open spec fn first_strata(
    walk: Seq<Seq<u64>>,
    whole: Seq<Seq<u64>>,
    sizes: Seq<u64>,
    n: nat,
) -> bool {
    &&& whole.len() == lattice::volume(sizes)
    &&& goes_inwards(whole, sizes)
    &&& walk.len() <= whole.len()
    &&& walk == whole.take(walk.len() as int)
    &&& strata_of(walk, sizes) <= n
    &&& walk.len() < whole.len() ==> strata_of(whole.take(walk.len() as int + 1), sizes) > n
}

/// With a limit the order by extremes keeps so many strata, each of them
/// whole.
pub proof fn law_extremes_cut(child: CompV, sizes: Seq<u64>, n: u64)
    requires
        on_grid(child, sizes),
    ensures
        exists|walk: Seq<Seq<u64>>, whole: Seq<Seq<u64>>|
            #![trigger first_strata(walk, whole, sizes, n as nat)]
            {
                &&& visits(
                    compile::tuples_of(child),
                    sizes,
                    compile::tuples_of(
                        CompV::Order(Box::new(child), StrategyName::Extrema, Some(n)),
                    ),
                    walk,
                )
                &&& first_strata(walk, whole, sizes, n as nat)
            },
{
    let s = compile::tuples_of(child);
    let whole = extrema::by_stratum(sizes);
    let key = extrema::stratum(sizes);
    let walk = extrema::first_runs(whole, key, n as nat);
    extrema::law_strata_permute(sizes);
    lemma_rearranged(whole, sizes);
    extrema::lemma_first_runs_prefix(whole, key, n as nat);
    let m = walk.len() as int;
    assert(walk == whole.take(m));
    lemma_walk_cut(whole, m);
    assert forall|i: int| 0 <= i < walk.len() implies lattice::inside(#[trigger] walk[i], sizes) by {
        assert(walk[i] == whole[i]);
    }
    lemma_looked_up(walk, sizes, s);
    lemma_strata_of(walk, sizes);
    assert(whole.len() == 0 ==> extrema::runs(walk, key) == 0);
    if m < whole.len() {
        let more = whole.take(m + 1);
        assert forall|i: int| 0 <= i < more.len() implies lattice::inside(
            #[trigger] more[i],
            sizes,
        ) by {
            assert(more[i] == whole[i]);
        }
        lemma_strata_of(more, sizes);
    }
    assert forall|i: int, j: int| 0 <= i < j < whole.len() implies between(
        #[trigger] whole[i],
        sizes,
    ) <= between(#[trigger] whole[j], sizes) by {
        lemma_between(whole[i], sizes);
        lemma_between(whole[j], sizes);
        extrema::law_strata_ascend(sizes, i, j);
    }
    assert(first_strata(walk, whole, sizes, n as nat));
    assert(visits(
        s,
        sizes,
        compile::tuples_of(CompV::Order(Box::new(child), StrategyName::Extrema, Some(n))),
        walk,
    ));
}

/// A shuffle visits as many positions of a grid as asked for, none of them
/// twice.
pub proof fn law_shuffled_order(child: CompV, sizes: Seq<u64>, truncation: Option<u64>)
    requires
        on_grid(child, sizes),
    ensures
        exists|walk: Seq<Seq<u64>>|
            #![trigger visits(
                compile::tuples_of(child),
                sizes,
                compile::tuples_of(CompV::Order(Box::new(child), StrategyName::Shuffle, truncation)),
                walk,
            )]
            {
                &&& visits(
                    compile::tuples_of(child),
                    sizes,
                    compile::tuples_of(
                        CompV::Order(Box::new(child), StrategyName::Shuffle, truncation),
                    ),
                    walk,
                )
                &&& walk.len() == cut(lattice::volume(sizes), truncation)
            },
{
    let s = compile::tuples_of(child);
    let walk = shuffle::shuffle_order(IndexFnV::Lattice(sizes), truncation);
    shuffle::law_shuffle_distinct(sizes, truncation);
    lemma_looked_up(walk, sizes, s);
    assert(visits(
        s,
        sizes,
        compile::tuples_of(CompV::Order(Box::new(child), StrategyName::Shuffle, truncation)),
        walk,
    ));
}

/// Whether a comprehension is a clause over written values or a range.
pub open spec fn counted_clause(c: CompV) -> bool {
    c matches CompV::Clause(_, s) && (s is Literal || s is IntRange)
}

proof fn lemma_clause_axis(c: CompV)
    requires
        counted_clause(c),
        compile::tuples_of(c).len() <= u64::MAX,
    ensures
        compile::addressing(c) == Some(
            IndexFnV::Lattice(seq![compile::tuples_of(c).len() as u64]),
        ),
{
}

proof fn lemma_grid_of_clauses(children: Seq<CompV>)
    requires
        forall|k: int|
            0 <= k < children.len() ==> counted_clause(#[trigger] children[k])
                && compile::tuples_of(children[k]).len() <= u64::MAX,
    ensures
        metadata::all_grid_axes(compile::addressings(children)) == Some(
            lengths(compile::tuples_of_each(children)),
        ),
    decreases children.len(),
{
    compile::lemma_tuples_of_each(children);
    if children.len() == 0 {
        assert(lengths(compile::tuples_of_each(children)) =~= Seq::<u64>::empty());
    } else {
        let front = children.drop_last();
        assert forall|k: int| 0 <= k < front.len() implies counted_clause(#[trigger] front[k])
            && compile::tuples_of(front[k]).len() <= u64::MAX by {
            assert(front[k] == children[k]);
        }
        lemma_grid_of_clauses(front);
        compile::lemma_tuples_of_each(front);
        assert(counted_clause(children[children.len() - 1]));
        lemma_clause_axis(children.last());
        assert(compile::addressings(children).drop_last() =~= compile::addressings(front));
        assert(lengths(compile::tuples_of_each(front)) + seq![
            compile::tuples_of(children.last()).len() as u64,
        ] =~= lengths(compile::tuples_of_each(children)));
    }
}

/// A product of clauses stands on the grid whose axes are the clauses, each
/// as long as the clause has tuples.
pub proof fn law_product_stands_on_grid(children: Seq<CompV>)
    requires
        children.len() > 0,
        forall|k: int|
            0 <= k < children.len() ==> counted_clause(#[trigger] children[k])
                && compile::tuples_of(children[k]).len() <= u64::MAX,
        lattice::volume(lengths(compile::tuples_of_each(children))) <= u64::MAX,
    ensures
        on_grid(CompV::Cartesian(children), lengths(compile::tuples_of_each(children))),
{
    let axes = compile::tuples_of_each(children);
    compile::lemma_tuples_of_each(children);
    lemma_grid_of_clauses(children);
    assert forall|k: int| 0 <= k < axes.len() implies (#[trigger] axes[k]).len() <= u64::MAX by {
        assert(axes[k] == compile::tuples_of(children[k]));
        assert(counted_clause(children[k]));
    }
    lemma_product_len(axes);
}

/// A filtered comprehension stands on a single axis.
pub proof fn law_filter_stands_on_axis(child: CompV, p: Seq<char>)
    requires
        compile::tuples_of(CompV::Filter(Box::new(child), p)).len() <= u64::MAX,
    ensures
        on_grid(
            CompV::Filter(Box::new(child), p),
            seq![compile::tuples_of(CompV::Filter(Box::new(child), p)).len() as u64],
        ),
{
    lattice::lemma_volume_one(compile::tuples_of(CompV::Filter(Box::new(child), p)).len() as u64);
}

} // verus!
