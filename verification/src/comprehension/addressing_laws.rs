//! What the addressing of a comprehension's tuples says of them.
use crate::comprehension::cardinality;
use crate::comprehension::cardinality::{Interval, MeasureV};
use crate::comprehension::metadata;
use crate::comprehension::metadata::IndexFnV;
use crate::comprehension::predicate::coordset;
use crate::comprehension::predicate::coordset::CoordKind;
use crate::comprehension::strategies;
use crate::comprehension::strategies::lattice;
use vstd::prelude::*;

verus! {

/// A coordinate is found where its name stands first, and only there.
pub proof fn law_first_named(s: Seq<(Seq<char>, CoordKind)>, name: Seq<char>)
    ensures
        match coordset::first_named(s, name) {
            Some(i) => 0 <= i < s.len() && s[i].0 == name && forall|j: int|
                0 <= j < i ==> (#[trigger] s[j]).0 != name,
            None => forall|j: int| 0 <= j < s.len() ==> (#[trigger] s[j]).0 != name,
        },
    decreases s.len(),
{
    if s.len() > 0 && s[0].0 != name {
        let rest = s.drop_first();
        law_first_named(rest, name);
        match coordset::first_named(rest, name) {
            Some(i) => {
                assert forall|j: int| 0 <= j < i + 1 implies (#[trigger] s[j]).0 != name by {
                    if j > 0 {
                        assert(rest[j - 1] == s[j]);
                    }
                }
            },
            None => {
                assert forall|j: int| 0 <= j < s.len() implies (#[trigger] s[j]).0 != name by {
                    if j > 0 {
                        assert(rest[j - 1] == s[j]);
                    }
                }
            },
        }
    }
}

/// Every axis has one kind: discrete up to where the continuous axes begin,
/// continuous from there on. Only a scheme with a continuous axis has one
/// of that kind.
pub proof fn law_axis_kinds(idx: IndexFnV, expected: nat, i: int)
    requires
        0 <= i < strategies::space_dim(idx),
        idx is Lattice || idx is Continuous || idx is Hybrid,
    ensures
        ({
            let kinds = coordset::axis_kinds(Some(idx), expected);
            &&& kinds.len() == strategies::space_dim(idx)
            &&& idx is Lattice ==> kinds[i] is Discrete
            &&& idx is Continuous ==> kinds[i] is Continuous
            &&& idx matches IndexFnV::Hybrid(d, _, _) ==> (kinds[i] is Discrete <==> i < d.len())
            &&& kinds[i] is Continuous ==> strategies::has_continuous(idx)
        }),
{
}

/// Where nothing is known of the axes, the expected number of them is
/// discrete.
pub proof fn law_unknown_axes(expected: nat, i: int)
    requires
        0 <= i < expected,
    ensures
        coordset::axis_kinds(None, expected).len() == expected,
        coordset::axis_kinds(None, expected)[i] is Discrete,
{
}

/// The number of positions of two grids over one another is the product of
/// their numbers.
proof fn lemma_volumes(a: Seq<u64>, b: Seq<u64>)
    ensures
        lattice::volume(a + b) == lattice::volume(a) * lattice::volume(b),
    decreases a.len(),
{
    if a.len() == 0 {
        assert(a + b =~= b);
        assert(lattice::volume(a) == 1);
        let z = lattice::volume(b);
        assert(1 * z == z) by (nonlinear_arith);
    } else {
        assert((a + b).drop_first() =~= a.drop_first() + b);
        assert((a + b)[0] == a[0]);
        lemma_volumes(a.drop_first(), b);
        let x = a[0] as nat;
        let y = lattice::volume(a.drop_first());
        let z = lattice::volume(b);
        assert(x * (y * z) == (x * y) * z) by (nonlinear_arith);
        assert(lattice::volume(a) == x * y);
        assert(lattice::volume(a + b) == x * (y * z));
    }
}

proof fn lemma_axes_joined(a: Seq<Option<IndexFnV>>, b: Seq<Option<IndexFnV>>)
    ensures
        metadata::all_grid_axes(a + b) == match (
            metadata::all_grid_axes(a),
            metadata::all_grid_axes(b),
        ) {
            (Some(x), Some(y)) => Some(x + y),
            _ => None,
        },
    decreases b.len(),
{
    if b.len() == 0 {
        assert(a + b =~= a);
        match metadata::all_grid_axes(a) {
            Some(x) => {
                assert(x + Seq::<u64>::empty() =~= x);
            },
            None => {},
        }
    } else {
        assert((a + b).drop_last() =~= a + b.drop_last());
        assert((a + b).last() == b.last());
        lemma_axes_joined(a, b.drop_last());
        match (
            metadata::all_grid_axes(a),
            metadata::all_grid_axes(b.drop_last()),
            metadata::grid_axes(b.last()),
        ) {
            (Some(x), Some(y), Some(z)) => {
                assert((x + y) + z =~= x + (y + z));
            },
            _ => {},
        }
    }
}

/// A product over two runs of children has the axes of the one and then
/// those of the other, so its positions are all pairs of theirs; where one
/// of the runs is no grid, neither is the product.
pub proof fn law_product_index(a: Seq<Option<IndexFnV>>, b: Seq<Option<IndexFnV>>)
    ensures
        match (metadata::product_index(a), metadata::product_index(b)) {
            (Some(IndexFnV::Lattice(x)), Some(IndexFnV::Lattice(y))) => {
                &&& metadata::product_index(a + b) == Some(IndexFnV::Lattice(x + y))
                &&& strategies::space_size(metadata::product_index(a + b)->Some_0)
                    == strategies::space_size(IndexFnV::Lattice(x)) * strategies::space_size(
                    IndexFnV::Lattice(y),
                )
            },
            _ => metadata::product_index(a + b) is None,
        },
{
    lemma_axes_joined(a, b);
    match (metadata::product_index(a), metadata::product_index(b)) {
        (Some(IndexFnV::Lattice(x)), Some(IndexFnV::Lattice(y))) => {
            lemma_volumes(x, y);
        },
        _ => {},
    }
}

/// A product of one child that can be counted through by axes has as many
/// positions as the child, over as many axes.
pub proof fn law_product_of_one(idx: IndexFnV)
    ensures
        idx is Lattice || idx is Lockstep ==> {
            let r = metadata::product_index(seq![Some(idx)]);
            &&& r matches Some(x) && x is Lattice
            &&& strategies::space_size(r->Some_0) == strategies::space_size(idx)
            &&& strategies::space_dim(r->Some_0) == strategies::space_dim(idx)
        },
        !(idx is Lattice || idx is Lockstep) ==> metadata::product_index(seq![Some(idx)]) is None,
        metadata::product_index(seq![None::<IndexFnV>]) is None,
{
    let none = Seq::<Option<IndexFnV>>::empty();
    let one = seq![Some(idx)];
    assert(one.drop_last() =~= none);
    assert(metadata::all_grid_axes(none) == Some(Seq::<u64>::empty()));
    assert(one.last() == Some(idx));
    match metadata::grid_axes(Some(idx)) {
        Some(axes) => {
            assert(Seq::<u64>::empty() + axes =~= axes);
        },
        None => {},
    }
    match idx {
        IndexFnV::Lockstep(n) => {
            let axes = seq![n];
            assert(axes.drop_first() =~= Seq::<u64>::empty());
            assert(lattice::volume(axes.drop_first()) == 1);
            assert(lattice::volume(axes) == n as nat);
        },
        _ => {},
    }
    let unknown = seq![None::<IndexFnV>];
    assert(unknown.drop_last() =~= none);
    assert(unknown.last() is None);
}

/// The largest of a run of sizes is one of them, and no other is larger.
pub proof fn law_largest(s: Seq<u64>)
    requires
        s.len() > 0,
    ensures
        s.contains(strategies::largest_of(s)),
        forall|i: int| 0 <= i < s.len() ==> #[trigger] s[i] <= strategies::largest_of(s),
    decreases s.len(),
{
    let front = s.drop_last();
    if front.len() > 0 {
        law_largest(front);
        let k = choose|k: int| 0 <= k < front.len() && front[k] == strategies::largest_of(front);
        assert(s[k] == front[k]);
        assert forall|i: int| 0 <= i < s.len() implies #[trigger] s[i] <= strategies::largest_of(
            s,
        ) by {
            if i < front.len() {
                assert(front[i] == s[i]);
            }
        }
        assert(s[s.len() - 1] == s.last());
    } else {
        assert(strategies::largest_of(front) == 0);
        assert(s[0] == s.last());
    }
}

/// The sizes of two runs of segments come to the sum of theirs.
pub proof fn law_totals(a: Seq<u64>, b: Seq<u64>, n: u64)
    ensures
        strategies::total_of(a + b) == strategies::total_of(a) + strategies::total_of(b),
        strategies::total_of(seq![n]) == n,
    decreases b.len(),
{
    assert(seq![n].drop_last() =~= Seq::<u64>::empty());
    assert(strategies::total_of(seq![n].drop_last()) == 0);
    if b.len() == 0 {
        assert(a + b =~= a);
    } else {
        assert((a + b).drop_last() =~= a + b.drop_last());
        law_totals(a, b.drop_last(), n);
    }
}

/// An address stands for a place among the positions of a grid, of a
/// lockstep or of segments; in each, every place has exactly one address.
pub proof fn law_addresses(idx: IndexFnV, f: nat)
    requires
        idx is Lattice || idx is Lockstep || idx is Concatenation,
        f < strategies::space_size(idx),
        strategies::space_size(idx) <= u64::MAX,
    ensures
        exists|mi: Seq<u64>|
            #![trigger strategies::flat_of(idx, mi)]
            strategies::flat_of(idx, mi) == Some(f) && mi.len() == strategies::space_dim(idx),
        forall|mi: Seq<u64>|
            #![trigger strategies::flat_of(idx, mi)]
            strategies::flat_of(idx, mi) matches Some(g) ==> g < strategies::space_size(idx),
        forall|a: Seq<u64>, b: Seq<u64>|
            #![trigger strategies::flat_of(idx, a), strategies::flat_of(idx, b)]
            strategies::flat_of(idx, a) is Some && strategies::flat_of(idx, a)
                == strategies::flat_of(idx, b) ==> a == b,
{
    match idx {
        IndexFnV::Lattice(sizes) => {
            lattice::law_place_of_digits(f, sizes);
            assert(strategies::flat_of(idx, lattice::digits(f, sizes)) == Some(f));
            assert forall|mi: Seq<u64>| #[trigger]
                strategies::flat_of(idx, mi) is Some implies strategies::flat_of(idx, mi)->Some_0
                < strategies::space_size(idx) by {
                lattice::law_digits_of_place(mi, sizes);
            }
            assert forall|a: Seq<u64>, b: Seq<u64>|
                #![trigger strategies::flat_of(idx, a), strategies::flat_of(idx, b)]
                strategies::flat_of(idx, a) is Some && strategies::flat_of(idx, a)
                    == strategies::flat_of(idx, b) implies a == b by {
                lattice::law_digits_of_place(a, sizes);
                lattice::law_digits_of_place(b, sizes);
            }
        },
        _ => {
            let mi = seq![f as u64];
            assert(strategies::flat_of(idx, mi) == Some(f));
            assert forall|a: Seq<u64>, b: Seq<u64>|
                #![trigger strategies::flat_of(idx, a), strategies::flat_of(idx, b)]
                strategies::flat_of(idx, a) is Some && strategies::flat_of(idx, a)
                    == strategies::flat_of(idx, b) implies a == b by {
                assert(a =~= b);
            }
        },
    }
}

/// The uniform measure has finite mass over two runs of intervals exactly
/// where it has over each; over one interval, where both ends are finite.
pub proof fn law_uniform_mass(a: Seq<Interval>, b: Seq<Interval>, i: Interval)
    ensures
        cardinality::integrable(MeasureV::Uniform, a + b) <==> cardinality::integrable(
            MeasureV::Uniform,
            a,
        ) && cardinality::integrable(MeasureV::Uniform, b),
        cardinality::integrable(MeasureV::Uniform, seq![i]) <==> i.lo.finite() && i.hi.finite(),
{
    if cardinality::integrable(MeasureV::Uniform, a + b) {
        assert forall|k: int| 0 <= k < a.len() implies (#[trigger] a[k]).bounded() by {
            assert((a + b)[k] == a[k]);
        }
        assert forall|k: int| 0 <= k < b.len() implies (#[trigger] b[k]).bounded() by {
            assert((a + b)[a.len() + k] == b[k]);
        }
    }
    if cardinality::integrable(MeasureV::Uniform, seq![i]) {
        assert(seq![i][0].bounded());
    }
}

/// A product of uniform measures, one for each interval, has finite mass
/// where the uniform measure over all of them has; with one too many or too
/// few it has none.
pub proof fn law_uniform_product(n: nat, intervals: Seq<Interval>)
    ensures
        ({
            let m = MeasureV::Product(Seq::new(n, |i: int| MeasureV::Uniform));
            cardinality::integrable(m, intervals) <==> n == intervals.len()
                && cardinality::integrable(MeasureV::Uniform, intervals)
        }),
{
    let parts = Seq::new(n, |i: int| MeasureV::Uniform);
    let m = MeasureV::Product(parts);
    if n == intervals.len() {
        assert forall|i: int| 0 <= i < n implies cardinality::integrable(
            #[trigger] parts[i],
            seq![intervals[i]],
        ) == intervals[i].bounded() by {
            law_uniform_mass(seq![intervals[i]], Seq::empty(), intervals[i]);
        }
        if cardinality::integrable(m, intervals) {
            assert forall|i: int| 0 <= i < intervals.len() implies (
            #[trigger] intervals[i]).bounded() by {
                assert(cardinality::integrable(parts[i], seq![intervals[i]]));
            }
        }
    }
}

/// A named distribution has finite mass over any intervals, and so has a
/// product of such, one for each.
pub proof fn law_named_mass(names: Seq<cardinality::MeasureName>, intervals: Seq<Interval>)
    ensures
        forall|i: int|
            0 <= i < names.len() ==> cardinality::integrable(
                MeasureV::Named(#[trigger] names[i]),
                intervals,
            ),
        names.len() == intervals.len() ==> cardinality::integrable(
            MeasureV::Product(Seq::new(names.len(), |i: int| MeasureV::Named(names[i]))),
            intervals,
        ),
{
    let parts = Seq::new(names.len(), |i: int| MeasureV::Named(names[i]));
    if names.len() == intervals.len() {
        assert forall|i: int| 0 <= i < parts.len() implies cardinality::integrable(
            #[trigger] parts[i],
            seq![intervals[i]],
        ) by {
            assert(parts[i] == MeasureV::Named(names[i]));
        }
        assert(cardinality::integrable(MeasureV::Product(parts), intervals));
    }
}

} // verus!
