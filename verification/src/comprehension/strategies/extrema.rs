//! Corners first, then edges, faces, and the inside.
//!
//! The positions of a grid in strata by interior count: the number of axes
//! on which the index is neither the first nor the last. Within a stratum
//! the order is lexicographic. A limit counts whole strata.
use super::{
    index_fn_supports_lookup, largest, lattice, look_up, saturating_total, EvaluatedInput,
    MultiIndex, Strategy,
};
use crate::comprehension::cardinality::Interval;
use crate::comprehension::metadata::{IndexFn, IndexFnV};
use crate::comprehension::strategy::StrategyName;
use crate::comprehension::tuple;
use crate::comprehension::tuple::{Tuple, TupleV};
use crate::value::same_items;
use vstd::prelude::*;

verus! {

/// Whether index `c` on an axis of size `s` is neither first nor last.
pub open spec fn interior(c: u64, s: u64) -> bool {
    c != 0 && c != (if s == 0 {
        0
    } else {
        (s - 1) as u64
    })
}

/// The number of axes on which `mi` is interior.
pub open spec fn interior_axes(mi: Seq<u64>, sizes: Seq<u64>) -> nat
    decreases mi.len(),
{
    if mi.len() == 0 || sizes.len() == 0 {
        0
    } else {
        (if interior(mi[0], sizes[0]) {
            1nat
        } else {
            0nat
        }) + interior_axes(mi.drop_first(), sizes.drop_first())
    }
}

/// The stratum of a position of the grid.
pub open spec fn stratum(sizes: Seq<u64>) -> spec_fn(Seq<u64>) -> int {
    |mi: Seq<u64>| interior_axes(mi, sizes) as int
}

/// The strata in order.
pub open spec fn ascending() -> spec_fn(int) -> int {
    |i: int| i
}

/// The positions of a grid by stratum.
pub open spec fn by_stratum(sizes: Seq<u64>) -> Seq<Seq<u64>> {
    lattice::grouped(lattice::positions(sizes), stratum(sizes), ascending(), sizes.len() + 1)
}

/// The number of runs of equal keys.
pub open spec fn runs<A>(s: Seq<A>, key: spec_fn(A) -> int) -> nat
    decreases s.len(),
{
    if s.len() == 0 {
        0
    } else if s.len() >= 2 && key(s[s.len() - 2]) == key(s.last()) {
        runs(s.drop_last(), key)
    } else {
        runs(s.drop_last(), key) + 1
    }
}

/// The longest beginning with at most `n` runs of equal keys.
pub open spec fn first_runs<A>(s: Seq<A>, key: spec_fn(A) -> int, n: nat) -> Seq<A>
    decreases s.len(),
{
    if s.len() == 0 || runs(s, key) <= n {
        s
    } else {
        first_runs(s.drop_last(), key, n)
    }
}

/// The positions of a grid by stratum, the first strata only.
pub open spec fn strata(sizes: Seq<u64>, truncation: Option<u64>) -> Seq<Seq<u64>> {
    match truncation {
        Some(n) => first_runs(by_stratum(sizes), stratum(sizes), n as nat),
        None => by_stratum(sizes),
    }
}

/// The axes over which a space is seen: those of a grid; the two ends of
/// each continuous axis; one axis for the other spaces.
pub open spec fn seen_axes(idx: IndexFnV) -> Seq<u64> {
    match idx {
        IndexFnV::Lattice(sizes) => sizes,
        IndexFnV::Continuous(intervals, _) => Seq::new(intervals.len(), |i: int| 2u64),
        IndexFnV::Hybrid(discrete, continuous, _) => discrete + Seq::new(
            continuous.len(),
            |i: int| 2u64,
        ),
        IndexFnV::Lockstep(n) => seq![n],
        IndexFnV::Modular(sizes) => seq![super::largest_of(sizes)],
        IndexFnV::Concatenation(sizes) => seq![super::total_of(sizes) as u64],
    }
}

/// The multi-indices of a space by stratum; a space without axes has none.
pub open spec fn extrema_order(idx: IndexFnV, truncation: Option<u64>) -> Seq<Seq<u64>> {
    if super::space_dim(idx) == 0 {
        Seq::empty()
    } else {
        strata(seen_axes(idx), truncation)
    }
}

/// The ends first, then what lies between, up to a limit. A limit of one
/// leaves the first only.
pub open spec fn ends_first<A>(s: Seq<A>, truncation: Option<u64>) -> Seq<A> {
    if s.len() == 0 {
        s
    } else if s.len() == 1 {
        lattice::limited(s, truncation)
    } else {
        lattice::limited(seq![s[0], s.last()] + s.subrange(1, s.len() - 1), truncation)
    }
}

/// Corners first.
pub struct Extrema;

impl Strategy for Extrema {
    open spec fn named(&self) -> StrategyName {
        StrategyName::Extrema
    }

    open spec fn accepts(&self, idx: Option<IndexFnV>) -> bool {
        idx is Some
    }

    open spec fn closed_form(&self, idx: IndexFnV) -> bool {
        idx is Lattice || idx is Continuous || idx is Hybrid
    }

    open spec fn ordered(
        &self,
        tuples: Seq<TupleV>,
        idx: IndexFnV,
        truncation: Option<u64>,
    ) -> Seq<TupleV> {
        if super::has_continuous(idx) {
            ends_first(tuples, truncation)
        } else {
            super::looked_up(extrema_order(idx, truncation), idx, tuples)
        }
    }

    open spec fn within_limits(&self, idx: IndexFnV) -> bool {
        super::countable(idx) && lattice::volume(seen_axes(idx)) <= u64::MAX
    }

    fn name(&self) -> StrategyName {
        StrategyName::Extrema
    }

    fn accepts_input(&self, idx: Option<&IndexFn>) -> bool {
        idx.is_some()
    }

    fn has_closed_form_for(&self, idx: &IndexFn) -> bool {
        matches!(
            idx,
            IndexFn::Lattice { .. } | IndexFn::Continuous { .. } | IndexFn::Hybrid { .. }
        )
    }

    fn apply(&self, input: &EvaluatedInput, truncation: Option<u64>) -> Vec<Tuple> {
        if index_fn_supports_lookup(&input.index_fn) {
            let mis: Vec<MultiIndex> = extrema_multi_indices(&input.index_fn, truncation);
            look_up(&mis, input)
        } else {
            naive_extrema_prefix(&input.tuples, truncation)
        }
    }
}

/// The ends first, then what lies between, up to a limit.
fn naive_extrema_prefix(input: &Vec<Tuple>, truncation: Option<u64>) -> (r: Vec<Tuple>)
    ensures
        tuple::tuple_views(r@) == ends_first(tuple::tuple_views(input@), truncation),
{
    let ghost all = tuple::tuple_views(input@);
    let mut out: Vec<Tuple> = Vec::new();
    assert(tuple::tuple_views(out@) =~= Seq::<TupleV>::empty());
    let len: usize = input.len();
    if len == 0 {
        assert(all =~= Seq::<TupleV>::empty());
        return out;
    }
    let n: u64 = match truncation {
        Some(t) => if t < len as u64 {
            t
        } else {
            len as u64
        },
        None => len as u64,
    };
    let ghost order = if len == 1 {
        all
    } else {
        seq![all[0], all.last()] + all.subrange(1, all.len() - 1)
    };
    assert(order.take(order.len() as int) =~= order);
    if n == 0 {
        assert(order.take(0) =~= Seq::<TupleV>::empty());
        return out;
    }
    let first: Tuple = input[0].clone();
    let ghost fv = first@;
    out.push(first);
    assert(tuple::tuple_views(out@) =~= seq![fv]);
    if n == 1 {
        assert(order.take(1) =~= seq![fv]);
        return out;
    }
    let last: Tuple = input[len - 1].clone();
    let ghost lv = last@;
    out.push(last);
    assert(tuple::tuple_views(out@) =~= seq![fv, lv]);
    assert(tuple::tuple_views(out@) =~= order.take(2));
    let mut i: usize = 1;
    while i < len - 1 && (out.len() as u64) < n
        invariant
            len == input@.len(),
            len >= 2,
            n >= 2,
            n <= len,
            1 <= i <= len - 1,
            out@.len() == i + 1,
            i + 1 <= n,
            all == tuple::tuple_views(input@),
            order == seq![all[0], all.last()] + all.subrange(1, all.len() - 1),
            tuple::tuple_views(out@) == order.take(i + 1),
        decreases len - i,
    {
        let ghost before = out@;
        let t: Tuple = input[i].clone();
        let ghost tv = t@;
        out.push(t);
        i = i + 1;
        assert(tuple::tuple_views(out@) =~= tuple::tuple_views(before).push(tv));
        assert(tuple::tuple_views(out@) =~= order.take(i + 1));
    }
    out
}

/// The axes over which `idx` is seen.
fn axes_seen(idx: &IndexFn) -> (r: Vec<u64>)
    requires
        super::countable(idx@),
    ensures
        r@ == seen_axes(idx@),
{
    let axis_sizes: Vec<u64> = match idx {
        IndexFn::Lattice { axis_sizes } => same_items(axis_sizes),
        IndexFn::Continuous { intervals, .. } => {
            let mut s: Vec<u64> = Vec::new();
            push_ends(&mut s, intervals);
            s
        },
        IndexFn::Hybrid { discrete_axes, continuous_axes, .. } => {
            let mut s: Vec<u64> = same_items(discrete_axes);
            push_ends(&mut s, continuous_axes);
            s
        },
        IndexFn::Lockstep { length } => vec![*length],
        IndexFn::Modular { axis_sizes } => vec![largest(axis_sizes)],
        IndexFn::Concatenation { segment_sizes } => vec![saturating_total(segment_sizes)],
    };
    assert(axis_sizes@ =~= seen_axes(idx@));
    axis_sizes
}

/// Whether the positions of the axes over which `idx` is seen can be
/// counted.
pub(crate) fn strata_fit(idx: &IndexFn) -> (r: bool)
    requires
        super::countable(idx@),
    ensures
        r == (lattice::volume(seen_axes(idx@)) <= u64::MAX),
{
    lattice::volume_fits(&axes_seen(idx))
}

/// The multi-indices of `idx` by stratum.
pub fn extrema_multi_indices(idx: &IndexFn, truncation: Option<u64>) -> (r: Vec<MultiIndex>)
    requires
        super::countable(idx@),
        lattice::volume(seen_axes(idx@)) <= u64::MAX,
    ensures
        lattice::rows(r@) == extrema_order(idx@, truncation),
{
    let axis_sizes: Vec<u64> = axes_seen(idx);
    if axis_sizes.len() == 0 {
        let r: Vec<MultiIndex> = Vec::new();
        assert(lattice::rows(r@) =~= Seq::<Seq<u64>>::empty());
        return r;
    }
    extrema_strata(&axis_sizes, truncation)
}

/// Two positions for each continuous axis.
fn push_ends(out: &mut Vec<u64>, intervals: &Vec<Interval>)
    ensures
        final(out)@ == old(out)@ + Seq::new(intervals@.len(), |i: int| 2u64),
{
    let mut i: usize = 0;
    assert(out@ =~= old(out)@ + Seq::new(0, |k: int| 2u64));
    while i < intervals.len()
        invariant
            i <= intervals@.len(),
            out@ == old(out)@ + Seq::new(i as nat, |k: int| 2u64),
        decreases intervals.len() - i,
    {
        out.push(2);
        i = i + 1;
        assert(out@ =~= old(out)@ + Seq::new(i as nat, |k: int| 2u64));
    }
}

/// The number of axes on which `mi` is interior.
fn interior_count(mi: &Vec<u64>, axis_sizes: &Vec<u64>) -> (r: u64)
    ensures
        r == interior_axes(mi@, axis_sizes@),
{
    let mut count: u64 = 0;
    let mut i: usize = if mi.len() <= axis_sizes.len() {
        mi.len()
    } else {
        axis_sizes.len()
    };
    let ghost n = i as int;
    proof {
        assert(mi@.skip(n).len() == 0 || axis_sizes@.skip(n).len() == 0);
    }
    while i > 0
        invariant
            i <= n,
            n <= mi@.len(),
            n <= axis_sizes@.len(),
            n <= usize::MAX,
            count == interior_axes(mi@.skip(i as int), axis_sizes@.skip(i as int)),
            count <= n - i,
        decreases i,
    {
        i = i - 1;
        assert(mi@.skip(i as int).drop_first() =~= mi@.skip(i + 1));
        assert(axis_sizes@.skip(i as int).drop_first() =~= axis_sizes@.skip(i + 1));
        let c: u64 = mi[i];
        if c != 0 && c != axis_sizes[i].saturating_sub(1) {
            count = count + 1;
        }
    }
    assert(mi@.skip(0) =~= mi@);
    assert(axis_sizes@.skip(0) =~= axis_sizes@);
    count
}

/// The positions of a grid by stratum, the first strata only.
fn extrema_strata(axis_sizes: &Vec<u64>, truncation: Option<u64>) -> (r: Vec<MultiIndex>)
    requires
        lattice::volume(axis_sizes@) <= u64::MAX,
    ensures
        lattice::rows(r@) == strata(axis_sizes@, truncation),
{
    let ghost sizes = axis_sizes@;
    let total: u64 = lattice::saturating_volume(axis_sizes);
    let mut scored: Vec<(u64, MultiIndex)> = Vec::new();
    let ghost pos = lattice::positions(sizes);
    let mut k: usize = 0;
    assert(marked(scored@) =~= Seq::<Seq<u64>>::empty());
    loop
        invariant_except_break
            sizes == axis_sizes@,
            pos == lattice::positions(sizes),
            total == lattice::volume(sizes),
            k <= sizes.len(),
            marked(scored@) == lattice::grouped(pos, stratum(sizes), ascending(), k as nat),
            keyed(scored@, sizes),
        ensures
            marked(scored@) == by_stratum(sizes),
            keyed(scored@, sizes),
        decreases sizes.len() - k,
    {
        let ghost before = marked(scored@);
        let mut i: u64 = 0;
        proof {
            assert(pos.take(0) =~= Seq::<Seq<u64>>::empty());
            lattice::lemma_group_none(pos.take(0), stratum(sizes), k as int);
            assert(marked(scored@) =~= before + lattice::group(
                pos.take(0),
                stratum(sizes),
                k as int,
            ));
        }
        while i < total
            invariant
                i <= total,
                sizes == axis_sizes@,
                pos == lattice::positions(sizes),
                total == lattice::volume(sizes),
                keyed(scored@, sizes),
                marked(scored@) == before + lattice::group(
                    pos.take(i as int),
                    stratum(sizes),
                    k as int,
                ),
            decreases total - i,
        {
            proof {
                lattice::lemma_volume_positive(sizes);
            }
            let mi: MultiIndex = lattice::linear_to_multi(i, axis_sizes);
            let ghost row = mi@;
            let count: u64 = interior_count(&mi, axis_sizes);
            let ghost had = scored@;
            proof {
                assert(pos.take(i + 1) =~= pos.take(i as int) + seq![row]);
                lattice::lemma_group_concat(
                    pos.take(i as int),
                    seq![row],
                    stratum(sizes),
                    k as int,
                );
                lattice::lemma_group_one(row, stratum(sizes), k as int);
            }
            if count == k as u64 {
                scored.push((count, mi));
                assert(marked(scored@) =~= marked(had).push(row));
            }
            assert(marked(scored@) =~= before + lattice::group(
                pos.take(i + 1),
                stratum(sizes),
                k as int,
            ));
            i = i + 1;
        }
        assert(pos.take(total as int) =~= pos);
        assert(ascending()(k as int) == k as int);
        if k == axis_sizes.len() {
            break ;
        }
        k = k + 1;
    }
    take_n_strata(scored, truncation, Ghost(sizes))
}

/// The multi-indices of a run of keyed ones.
spec fn marked(s: Seq<(u64, MultiIndex)>) -> Seq<Seq<u64>> {
    Seq::new(s.len(), |i: int| s[i].1@)
}

/// Every key is its multi-index's stratum.
spec fn keyed(s: Seq<(u64, MultiIndex)>, sizes: Seq<u64>) -> bool {
    forall|i: int| 0 <= i < s.len() ==> (#[trigger] s[i]).0 == interior_axes(s[i].1@, sizes)
}

/// The multi-indices of the first `n` strata of `scored`.
fn take_n_strata(
    scored: Vec<(u64, MultiIndex)>,
    n: Option<u64>,
    Ghost(sizes): Ghost<Seq<u64>>,
) -> (r: Vec<MultiIndex>)
    requires
        keyed(scored@, sizes),
    ensures
        lattice::rows(r@) == match n {
            Some(k) => first_runs(marked(scored@), stratum(sizes), k as nat),
            None => marked(scored@),
        },
{
    let ghost all = marked(scored@);
    let ghost key = stratum(sizes);
    let mut out: Vec<MultiIndex> = Vec::new();
    let mut strata_seen: u64 = 0;
    let mut last: Option<u64> = None;
    let mut i: usize = 0;
    assert(lattice::rows(out@) =~= all.take(0));
    while i < scored.len()
        invariant
            i <= scored@.len(),
            all == marked(scored@),
            key == stratum(sizes),
            keyed(scored@, sizes),
            lattice::rows(out@) == all.take(i as int),
            strata_seen == runs(all.take(i as int), key),
            strata_seen <= i,
            n matches Some(k) ==> strata_seen <= k,
            i == 0 ==> last is None,
            i > 0 ==> last == Some(scored@[i - 1].0),
        decreases scored.len() - i,
    {
        let item: &(u64, MultiIndex) = &scored[i];
        let ghost next = all.take(i + 1);
        proof {
            assert(next.drop_last() =~= all.take(i as int));
            assert(next.last() == all[i as int]);
            assert(key(all[i as int]) == scored@[i as int].0);
            if i > 0 {
                assert(next[next.len() - 2] == all[i - 1]);
                assert(key(all[i - 1]) == scored@[i - 1].0);
            }
        }
        let same: bool = match last {
            Some(k) => k == item.0,
            None => false,
        };
        if !same {
            let full: bool = match n {
                Some(limit) => strata_seen >= limit,
                None => false,
            };
            if full {
                proof {
                    lemma_first_runs_cut(all, key, i as int, strata_seen as nat);
                }
                return out;
            }
            strata_seen = strata_seen + 1;
            last = Some(item.0);
        }
        let ghost before = out@;
        out.push(same_items(&item.1));
        assert(lattice::rows(out@) =~= lattice::rows(before).push(all[i as int]));
        assert(lattice::rows(out@) =~= all.take(i + 1));
        i = i + 1;
    }
    assert(all.take(i as int) =~= all);
    out
}

/// Runs do not become fewer as a sequence grows.
proof fn lemma_runs_grow<A>(s: Seq<A>, key: spec_fn(A) -> int, k: int)
    requires
        0 <= k <= s.len(),
    ensures
        runs(s.take(k), key) <= runs(s, key),
    decreases s.len(),
{
    if k == s.len() {
        assert(s.take(k) =~= s);
    } else {
        lemma_runs_grow(s.drop_last(), key, k);
        assert(s.drop_last().take(k) =~= s.take(k));
    }
}

/// The beginning with `n` runs ends where the next run begins.
proof fn lemma_first_runs_cut<A>(s: Seq<A>, key: spec_fn(A) -> int, cut: int, n: nat)
    requires
        0 <= cut < s.len(),
        runs(s.take(cut), key) == n,
        runs(s.take(cut + 1), key) == n + 1,
    ensures
        first_runs(s, key, n) == s.take(cut),
    decreases s.len(),
{
    lemma_runs_grow(s, key, cut + 1);
    let t = s.drop_last();
    if cut == s.len() - 1 {
        assert(s.take(cut) =~= t);
        assert(s.take(cut + 1) =~= s);
        assert(first_runs(t, key, n) == t);
    } else {
        assert(t.take(cut) =~= s.take(cut));
        assert(t.take(cut + 1) =~= s.take(cut + 1));
        lemma_first_runs_cut(t, key, cut, n);
    }
}

// ---------------------------------------------------------------------
// Laws
// ---------------------------------------------------------------------

proof fn lemma_interior_bound(mi: Seq<u64>, sizes: Seq<u64>)
    ensures
        interior_axes(mi, sizes) <= sizes.len(),
    decreases mi.len(),
{
    if mi.len() > 0 && sizes.len() > 0 {
        lemma_interior_bound(mi.drop_first(), sizes.drop_first());
    }
}

/// All strata together are a rearrangement of the grid's positions.
pub proof fn law_strata_permute(sizes: Seq<u64>)
    ensures
        strata(sizes, None).to_multiset() =~= lattice::positions(sizes).to_multiset(),
{
    let pos = lattice::positions(sizes);
    assert forall|m: int| 0 <= m < pos.len() implies 0 <= stratum(sizes)(#[trigger] pos[m])
        < sizes.len() + 1 && ascending()(stratum(sizes)(pos[m])) == stratum(sizes)(pos[m]) by {
        lemma_interior_bound(pos[m], sizes);
    }
    lattice::lemma_grouped_permutes(
        pos,
        stratum(sizes),
        ascending(),
        sizes.len() + 1,
        stratum(sizes),
    );
}

/// Corners come first: the interior count never falls.
pub proof fn law_strata_ascend(sizes: Seq<u64>, m: int, n: int)
    requires
        0 <= m <= n < strata(sizes, None).len(),
    ensures
        interior_axes(strata(sizes, None)[m], sizes) <= interior_axes(
            strata(sizes, None)[n],
            sizes,
        ),
{
    lattice::lemma_grouped_ordered(
        lattice::positions(sizes),
        stratum(sizes),
        ascending(),
        sizes.len() + 1,
        true,
    );
    let all = by_stratum(sizes);
    assert(stratum(sizes)(all[m]) <= stratum(sizes)(all[n]));
}

pub(crate) proof fn lemma_first_runs_prefix<A>(s: Seq<A>, key: spec_fn(A) -> int, n: nat)
    ensures
        first_runs(s, key, n).len() <= s.len(),
        s.take(first_runs(s, key, n).len() as int) == first_runs(s, key, n),
        runs(first_runs(s, key, n), key) <= n || s.len() == 0,
        first_runs(s, key, n).len() < s.len() ==> runs(
            s.take((first_runs(s, key, n).len() + 1) as int),
            key,
        ) > n,
    decreases s.len(),
{
    if s.len() == 0 || runs(s, key) <= n {
        assert(s.take(s.len() as int) =~= s);
    } else {
        let t = s.drop_last();
        lemma_first_runs_prefix(t, key, n);
        let c = first_runs(t, key, n);
        assert(s.take(c.len() as int) =~= t.take(c.len() as int));
        if c.len() < t.len() {
            assert(s.take((c.len() + 1) as int) =~= t.take((c.len() + 1) as int));
        } else {
            assert(s.take((c.len() + 1) as int) =~= s);
        }
    }
}

/// A limit never splits a stratum: of two positions that follow each other
/// in the full order and have the same interior count, both are kept or
/// neither is.
pub proof fn law_strata_whole(sizes: Seq<u64>, n: u64, m: int)
    requires
        n > 0,
        0 <= m,
        m + 1 < strata(sizes, None).len(),
        interior_axes(strata(sizes, None)[m], sizes) == interior_axes(
            strata(sizes, None)[m + 1],
            sizes,
        ),
    ensures
        m < strata(sizes, Some(n)).len() <==> m + 1 < strata(sizes, Some(n)).len(),
        strata(sizes, Some(n)) == strata(sizes, None).take(strata(sizes, Some(n)).len() as int),
{
    let all = by_stratum(sizes);
    let key = stratum(sizes);
    lemma_first_runs_prefix(all, key, n as nat);
    let kept = first_runs(all, key, n as nat);
    if kept.len() == m + 1 {
        let next = all.take(m + 2);
        assert(next.drop_last() =~= all.take(m + 1));
        assert(next[next.len() - 2] == all[m]);
        assert(next.last() == all[m + 1]);
        assert(key(all[m]) == key(all[m + 1]));
        assert(runs(next, key) == runs(all.take(m + 1), key));
        assert(all.take(kept.len() as int) =~= kept);
    }
}

} // verus!
