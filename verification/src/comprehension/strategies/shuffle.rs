//! Random permutations.
//!
//! The stream's seed is fixed by the size of the index space, so the same
//! input is always shuffled the same way. A limit draws that many positions
//! without repetition.
use super::prng::{Prng, Stream};
use super::{
    index_fn_size, index_fn_supports_lookup, lattice, look_up, prng, saturating_total,
    EvaluatedInput, MultiIndex, Strategy,
};
use crate::comprehension::metadata::{IndexFn, IndexFnV};
use crate::comprehension::strategy::StrategyName;
use crate::comprehension::tuple;
use crate::comprehension::tuple::{Tuple, TupleV};
use crate::value::same_items;
use vstd::prelude::*;

verus! {

/// The seed to which the size of the input is added.
pub const DEFAULT_SEED: u64 = 0xD1CE_5EED_C0FF_EE42;

/// The stream that shuffles an input of the given size.
pub open spec fn stream_for(size: u64) -> Stream {
    Stream { seed: DEFAULT_SEED.wrapping_add(size), inc: 1, position: 0 }
}

/// The numbers below `n`, in order.
pub open spec fn counting(n: nat) -> Seq<u64> {
    Seq::new(n, |i: int| i as u64)
}

/// `s` without the element at `j`, whose place the last one takes.
pub open spec fn taken_out(s: Seq<u64>, j: int) -> Seq<u64> {
    s.update(j, s.last()).drop_last()
}

/// `k` numbers drawn from a pool without putting any back.
pub open spec fn picks(pool: Seq<u64>, r: Stream, k: nat) -> Seq<u64>
    decreases k,
{
    if k == 0 || pool.len() == 0 {
        Seq::empty()
    } else {
        let n = pool.len() as u64;
        let j = prng::bounded(r, n) as int;
        seq![pool[j]] + picks(taken_out(pool, j), prng::after_bounded(r, n), (k - 1) as nat)
    }
}

/// Draws below each of the given sizes.
pub open spec fn bounded_draws(sizes: Seq<u64>, r: Stream) -> Seq<u64>
    decreases sizes.len(),
{
    if sizes.len() == 0 {
        Seq::empty()
    } else {
        seq![prng::bounded(r, sizes[0])] + bounded_draws(
            sizes.drop_first(),
            prng::after_bounded(r, sizes[0]),
        )
    }
}

/// The stream after draws below each of the given sizes.
pub open spec fn after_bounded_draws(sizes: Seq<u64>, r: Stream) -> Stream
    decreases sizes.len(),
{
    if sizes.len() == 0 {
        r
    } else {
        after_bounded_draws(sizes.drop_first(), prng::after_bounded(r, sizes[0]))
    }
}

/// `k` plain draws.
pub open spec fn plain_draws(r: Stream, k: nat) -> Seq<u64> {
    Seq::new(k, |i: int| prng::drawn(prng::ahead(r, i as nat)))
}

/// `n` samples, each with a draw below every discrete size and then `c`
/// plain draws.
pub open spec fn samples(discrete: Seq<u64>, c: nat, r: Stream, n: nat) -> Seq<Seq<u64>>
    decreases n,
{
    if n == 0 {
        Seq::empty()
    } else {
        let mid = after_bounded_draws(discrete, r);
        seq![bounded_draws(discrete, r) + plain_draws(mid, c)] + samples(
            discrete,
            c,
            prng::ahead(mid, c),
            (n - 1) as nat,
        )
    }
}

/// The axes over which positions are counted.
pub open spec fn counted_axes(idx: IndexFnV) -> Seq<u64> {
    match idx {
        IndexFnV::Lattice(sizes) => sizes,
        IndexFnV::Modular(sizes) => sizes,
        IndexFnV::Lockstep(n) => seq![n],
        IndexFnV::Concatenation(sizes) => seq![super::total_of(sizes) as u64],
        _ => Seq::empty(),
    }
}

/// The places that a shuffle of `total` positions gives, `n` of them.
pub open spec fn shuffled_places(total: u64, n: u64) -> Seq<u64> {
    if n == total {
        prng::shuffled(counting(total as nat), stream_for(total))
    } else {
        picks(counting(total as nat), stream_for(total), n as nat)
    }
}

/// The multi-indices of a space, shuffled.
pub open spec fn shuffle_order(idx: IndexFnV, truncation: Option<u64>) -> Seq<Seq<u64>> {
    let total = super::space_size(idx) as u64;
    let n = match truncation {
        Some(t) => if t < total {
            t
        } else {
            total
        },
        None => total,
    };
    if n == 0 {
        Seq::empty()
    } else {
        match idx {
            IndexFnV::Continuous(intervals, _) => samples(
                Seq::empty(),
                intervals.len(),
                stream_for(total),
                n as nat,
            ),
            IndexFnV::Hybrid(discrete, continuous, _) => samples(
                discrete,
                continuous.len(),
                stream_for(total),
                n as nat,
            ),
            _ => Seq::new(
                n as nat,
                |i: int|
                    lattice::digits(shuffled_places(total, n)[i] as nat, counted_axes(idx)),
            ),
        }
    }
}

/// Whether the positions of a space can be counted and divided out.
pub open spec fn divisible(idx: IndexFnV) -> bool {
    super::countable(idx) && (idx matches IndexFnV::Modular(sizes) ==> lattice::no_empty_axis(
        sizes,
    ))
}

/// Random permutations.
pub struct Shuffle;

impl Strategy for Shuffle {
    open spec fn named(&self) -> StrategyName {
        StrategyName::Shuffle
    }

    open spec fn accepts(&self, idx: Option<IndexFnV>) -> bool {
        idx is Some
    }

    open spec fn closed_form(&self, idx: IndexFnV) -> bool {
        true
    }

    open spec fn ordered(
        &self,
        tuples: Seq<TupleV>,
        idx: IndexFnV,
        truncation: Option<u64>,
    ) -> Seq<TupleV> {
        if super::has_continuous(idx) {
            lattice::limited(
                prng::shuffled(tuples, stream_for(tuples.len() as u64)),
                truncation,
            )
        } else {
            super::looked_up(shuffle_order(idx, truncation), idx, tuples)
        }
    }

    open spec fn within_limits(&self, idx: IndexFnV) -> bool {
        divisible(idx)
    }

    fn name(&self) -> StrategyName {
        StrategyName::Shuffle
    }

    fn accepts_input(&self, idx: Option<&IndexFn>) -> bool {
        idx.is_some()
    }

    fn has_closed_form_for(&self, idx: &IndexFn) -> bool {
        true
    }

    fn apply(&self, input: &EvaluatedInput, truncation: Option<u64>) -> Vec<Tuple> {
        if index_fn_supports_lookup(&input.index_fn) {
            let mis: Vec<MultiIndex> = shuffle_multi_indices(&input.index_fn, truncation);
            look_up(&mis, input)
        } else {
            naive_shuffle_over_tuples(tuple::copy_tuples(&input.tuples), truncation)
        }
    }
}

/// Shuffling commutes with taking contents.
proof fn lemma_views_fisher_yates(s: Seq<Tuple>, i: nat, r: Stream)
    requires
        i < s.len(),
        s.len() <= u64::MAX,
    ensures
        tuple::tuple_views(prng::fisher_yates(s, i, r)) == prng::fisher_yates(
            tuple::tuple_views(s),
            i,
            r,
        ),
    decreases i,
{
    if i > 0 {
        let n = (i + 1) as u64;
        let j = prng::bounded(r, n) as int;
        assert(0 <= j < n);
        let t = prng::swapped(s, i as int, j);
        assert(tuple::tuple_views(t) =~= prng::swapped(tuple::tuple_views(s), i as int, j));
        lemma_views_fisher_yates(t, (i - 1) as nat, prng::after_bounded(r, n));
    }
}

/// The tuples shuffled, then cut.
fn naive_shuffle_over_tuples(input: Vec<Tuple>, truncation: Option<u64>) -> (r: Vec<Tuple>)
    ensures
        tuple::tuple_views(r@) == lattice::limited(
            prng::shuffled(
                tuple::tuple_views(input@),
                stream_for(tuple::tuple_views(input@).len() as u64),
            ),
            truncation,
        ),
{
    let mut rng: Prng = Prng::new(DEFAULT_SEED.wrapping_add(input.len() as u64));
    let mut all: Vec<Tuple> = input;
    rng.shuffle(all.as_mut_slice());
    proof {
        if input@.len() >= 2 {
            lemma_views_fisher_yates(
                input@,
                (input@.len() - 1) as nat,
                stream_for(input@.len() as u64),
            );
        }
        assert(tuple::tuple_views(all@) == prng::shuffled(
            tuple::tuple_views(input@),
            stream_for(input@.len() as u64),
        ));
    }
    match truncation {
        Some(n) => tuple::copy_prefix(&all, n),
        None => all,
    }
}

/// The numbers below `n`.
fn count_up(n: u64) -> (r: Vec<u64>)
    ensures
        r@ == counting(n as nat),
{
    let mut out: Vec<u64> = Vec::new();
    let mut i: u64 = 0;
    while i < n
        invariant
            i <= n,
            out@ =~= counting(i as nat),
        decreases n - i,
    {
        out.push(i);
        i = i + 1;
    }
    out
}

/// The axes over which positions are counted.
fn axis_sizes_for(idx: &IndexFn) -> (r: Vec<u64>)
    requires
        super::countable(idx@),
    ensures
        r@ == counted_axes(idx@),
{
    let r: Vec<u64> = match idx {
        IndexFn::Lattice { axis_sizes } => same_items(axis_sizes),
        IndexFn::Modular { axis_sizes } => same_items(axis_sizes),
        IndexFn::Lockstep { length } => vec![*length],
        IndexFn::Concatenation { segment_sizes } => vec![saturating_total(segment_sizes)],
        _ => Vec::new(),
    };
    assert(r@ =~= counted_axes(idx@));
    r
}

/// Samples over discrete and continuous axes.
fn draw_samples(rng: Prng, discrete: &Vec<u64>, c: usize, n: u64) -> (out: Vec<MultiIndex>)
    ensures
        lattice::rows(out@) == samples(discrete@, c as nat, rng.stream(), n as nat),
{
    let mut rng: Prng = rng;
    let mut out: Vec<MultiIndex> = Vec::new();
    let mut i: u64 = 0;
    let ghost goal = samples(discrete@, c as nat, rng.stream(), n as nat);
    let ghost mut r: Stream = rng.stream();
    assert(lattice::rows(out@) + samples(discrete@, c as nat, r, n as nat) =~= goal);
    while i < n
        invariant
            i <= n,
            prng::same_stream(rng.stream(), r),
            lattice::rows(out@) + samples(discrete@, c as nat, r, (n - i) as nat) == goal,
        decreases n - i,
    {
        let ghost start = r;
        let mut mi: Vec<u64> = Vec::new();
        let mut k: usize = 0;
        assert(discrete@.skip(0) =~= discrete@);
        assert(mi@ + bounded_draws(discrete@, r) =~= bounded_draws(discrete@, start));
        while k < discrete.len()
            invariant
                k <= discrete@.len(),
                prng::same_stream(rng.stream(), r),
                mi@ + bounded_draws(discrete@.skip(k as int), r) == bounded_draws(
                    discrete@,
                    start,
                ),
                after_bounded_draws(discrete@.skip(k as int), r) == after_bounded_draws(
                    discrete@,
                    start,
                ),
            decreases discrete.len() - k,
        {
            let ghost rest = discrete@.skip(k as int);
            let ghost had = mi@;
            let ghost here = rng.stream();
            let size: u64 = discrete[k];
            assert(rest.drop_first() =~= discrete@.skip(k + 1));
            let v: u64 = rng.next_bounded(size);
            proof {
                prng::lemma_same_stream_bounded(here, r, size);
                lemma_same_trans(rng.stream(), prng::after_bounded(here, size), prng::after_bounded(r, size));
                r = prng::after_bounded(r, size);
            }
            mi.push(v);
            k = k + 1;
            assert(mi@ + bounded_draws(discrete@.skip(k as int), r) =~= had + (seq![v]
                + bounded_draws(discrete@.skip(k as int), r)));
        }
        assert(discrete@.skip(k as int) =~= Seq::<u64>::empty());
        assert(mi@ =~= bounded_draws(discrete@, start));
        let ghost mid = r;
        let ghost front = mi@;
        let mut m: usize = 0;
        assert(mi@ =~= front + plain_draws(mid, 0));
        assert(prng::ahead(mid, 0) == mid);
        while m < c
            invariant
                m <= c,
                prng::same_stream(rng.stream(), r),
                r == prng::ahead(mid, m as nat),
                mi@ == front + plain_draws(mid, m as nat),
            decreases c - m,
        {
            let ghost here = rng.stream();
            let v: u64 = rng.next_u64();
            proof {
                prng::law_equal_streams(here, r, 0);
                lemma_same_trans(rng.stream(), prng::ahead(here, 1), prng::ahead(r, 1));
                r = prng::ahead(mid, (m + 1) as nat);
            }
            mi.push(v);
            m = m + 1;
            assert(mi@ =~= front + plain_draws(mid, m as nat));
        }
        let ghost before = out@;
        let ghost row = mi@;
        out.push(mi);
        i = i + 1;
        proof {
            assert(lattice::rows(out@) =~= lattice::rows(before).push(row));
            assert(lattice::rows(before) + (seq![row] + samples(
                discrete@,
                c as nat,
                r,
                (n - i) as nat,
            )) =~= lattice::rows(out@) + samples(discrete@, c as nat, r, (n - i) as nat));
        }
    }
    assert(lattice::rows(out@) =~= goal);
    out
}

proof fn lemma_same_trans(a: Stream, b: Stream, c: Stream)
    requires
        prng::same_stream(a, b),
        prng::same_stream(b, c),
    ensures
        prng::same_stream(a, c),
{
    assert forall|n: nat| #[trigger] prng::drawn(prng::ahead(a, n)) == prng::drawn(
        prng::ahead(c, n),
    ) by {
        assert(prng::drawn(prng::ahead(a, n)) == prng::drawn(prng::ahead(b, n)));
        assert(prng::drawn(prng::ahead(b, n)) == prng::drawn(prng::ahead(c, n)));
    }
}

/// `n` places out of `total`, without repetition.
fn pick_places(rng: Prng, total: u64, n: u64) -> (out: Vec<u64>)
    requires
        n <= total,
    ensures
        out@ == picks(counting(total as nat), rng.stream(), n as nat),
        out@.len() == n,
{
    let mut rng: Prng = rng;
    let mut pool: Vec<u64> = count_up(total);
    let mut out: Vec<u64> = Vec::new();
    let ghost goal = picks(counting(total as nat), rng.stream(), n as nat);
    let ghost mut r: Stream = rng.stream();
    let mut i: u64 = 0;
    assert(out@ + picks(pool@, r, n as nat) =~= goal);
    while i < n
        invariant
            i <= n <= total,
            pool@.len() == total - i,
            out@.len() == i,
            prng::same_stream(rng.stream(), r),
            out@ + picks(pool@, r, (n - i) as nat) == goal,
        decreases n - i,
    {
        let ghost here = rng.stream();
        let ghost had = pool@;
        let ghost before = out@;
        let left: u64 = total - i;
        let j: u64 = rng.next_bounded(left);
        proof {
            prng::lemma_same_stream_bounded(here, r, left);
            lemma_same_trans(
                rng.stream(),
                prng::after_bounded(here, left),
                prng::after_bounded(r, left),
            );
        }
        let pick: u64 = pool[j as usize];
        out.push(pick);
        let last: usize = pool.len() - 1;
        pool.swap(j as usize, last);
        let dropped: Option<u64> = pool.pop();
        i = i + 1;
        proof {
            assert(pool@ =~= taken_out(had, j as int));
            assert(before + (seq![pick] + picks(
                pool@,
                prng::after_bounded(r, left),
                (n - i) as nat,
            )) =~= out@ + picks(pool@, prng::after_bounded(r, left), (n - i) as nat));
            r = prng::after_bounded(r, left);
        }
    }
    assert(out@ =~= goal);
    out
}

/// The multi-indices of `idx`, shuffled.
pub fn shuffle_multi_indices(idx: &IndexFn, truncation: Option<u64>) -> (r: Vec<MultiIndex>)
    requires
        divisible(idx@),
    ensures
        lattice::rows(r@) == shuffle_order(idx@, truncation),
{
    let total: u64 = index_fn_size(idx);
    let n: u64 = match truncation {
        Some(t) => if t < total {
            t
        } else {
            total
        },
        None => total,
    };
    if n == 0 {
        let r: Vec<MultiIndex> = Vec::new();
        assert(lattice::rows(r@) =~= Seq::<Seq<u64>>::empty());
        return r;
    }
    let rng: Prng = Prng::new(DEFAULT_SEED.wrapping_add(total));
    match idx {
        IndexFn::Continuous { intervals, .. } => {
            let none: Vec<u64> = Vec::new();
            assert(none@ =~= Seq::<u64>::empty());
            draw_samples(rng, &none, intervals.len(), n)
        },
        IndexFn::Hybrid { discrete_axes, continuous_axes, .. } => {
            draw_samples(rng, discrete_axes, continuous_axes.len(), n)
        },
        _ => {
            let axis_sizes: Vec<u64> = axis_sizes_for(idx);
            let ghost axes = counted_axes(idx@);
            proof {
                lemma_axes_not_empty(idx@);
            }
            let places: Vec<u64> = if n == total {
                let mut indices: Vec<u64> = count_up(total);
                let mut rng: Prng = rng;
                rng.shuffle(indices.as_mut_slice());
                indices
            } else {
                pick_places(rng, total, n)
            };
            assert(places@ == shuffled_places(total, n));
            assert(places@.len() == n);
            let mut out: Vec<MultiIndex> = Vec::new();
            let mut i: usize = 0;
            while i < places.len()
                invariant
                    i <= places@.len(),
                    axis_sizes@ == axes,
                    lattice::no_empty_axis(axes),
                    lattice::rows(out@) =~= Seq::new(
                        i as nat,
                        |k: int| lattice::digits(places@[k] as nat, axes),
                    ),
                decreases places.len() - i,
            {
                let ghost before = out@;
                let mi: MultiIndex = lattice::linear_to_multi(places[i], &axis_sizes);
                let ghost row = mi@;
                out.push(mi);
                assert(lattice::rows(out@) =~= lattice::rows(before).push(row));
                i = i + 1;
            }
            assert(lattice::rows(out@) =~= shuffle_order(idx@, truncation));
            out
        },
    }
}

proof fn lemma_axes_not_empty(idx: IndexFnV)
    requires
        divisible(idx),
        super::space_size(idx) > 0,
    ensures
        lattice::no_empty_axis(counted_axes(idx)),
{
    match idx {
        IndexFnV::Lattice(sizes) => {
            lattice::lemma_volume_positive(sizes);
        },
        _ => {},
    }
}

// ---------------------------------------------------------------------
// Laws
// ---------------------------------------------------------------------

proof fn lemma_taken_out(pool: Seq<u64>, j: int)
    requires
        pool.no_duplicates(),
        0 <= j < pool.len(),
    ensures
        taken_out(pool, j).no_duplicates(),
        forall|k: int| 0 <= k < taken_out(pool, j).len() ==> #[trigger] taken_out(pool, j)[k]
            != pool[j] && pool.contains(taken_out(pool, j)[k]),
{
    let t = taken_out(pool, j);
    assert forall|k: int| 0 <= k < t.len() implies #[trigger] t[k] != pool[j] && pool.contains(
        t[k],
    ) by {
        if k == j {
            assert(pool[pool.len() - 1] != pool[j]);
            assert(t[k] == pool[pool.len() - 1]);
        } else {
            assert(t[k] == pool[k]);
        }
    }
    assert forall|a: int, b: int| 0 <= a < t.len() && 0 <= b < t.len() && a != b implies t[a]
        != t[b] by {
        let x = if a == j {
            pool.len() - 1
        } else {
            a
        };
        let y = if b == j {
            pool.len() - 1
        } else {
            b
        };
        assert(t[a] == pool[x] && t[b] == pool[y] && x != y);
    }
}

proof fn lemma_picks_distinct(pool: Seq<u64>, r: Stream, k: nat)
    requires
        pool.no_duplicates(),
        k <= pool.len() <= u64::MAX,
    ensures
        picks(pool, r, k).len() == k,
        picks(pool, r, k).no_duplicates(),
        forall|i: int| 0 <= i < k ==> pool.contains(#[trigger] picks(pool, r, k)[i]),
    decreases k,
{
    if k > 0 {
        let n = pool.len() as u64;
        let j = prng::bounded(r, n) as int;
        assert(0 <= j < n);
        let rest = taken_out(pool, j);
        lemma_taken_out(pool, j);
        let tail = picks(rest, prng::after_bounded(r, n), (k - 1) as nat);
        lemma_picks_distinct(rest, prng::after_bounded(r, n), (k - 1) as nat);
        let all = picks(pool, r, k);
        assert(all == seq![pool[j]] + tail);
        assert forall|i: int| 0 <= i < k implies pool.contains(#[trigger] all[i]) by {
            if i == 0 {
                assert(all[0] == pool[j]);
            } else {
                assert(all[i] == tail[i - 1]);
                assert(rest.contains(tail[i - 1]));
                let m = choose|m: int| 0 <= m < rest.len() && rest[m] == tail[i - 1];
                assert(pool.contains(rest[m]));
            }
        }
        assert forall|a: int, b: int|
            0 <= a < all.len() && 0 <= b < all.len() && a != b implies all[a] != all[b] by {
            let lo = if a < b {
                a
            } else {
                b
            };
            let hi = if a < b {
                b
            } else {
                a
            };
            assert(all[hi] == tail[hi - 1]);
            if lo == 0 {
                assert(rest.contains(tail[hi - 1]));
                let m = choose|m: int| 0 <= m < rest.len() && rest[m] == tail[hi - 1];
                assert(rest[m] != pool[j]);
            } else {
                assert(all[lo] == tail[lo - 1]);
            }
        }
    }
}

/// A shuffle of a grid gives as many positions as asked for, all different
/// and all inside the grid.
pub proof fn law_shuffle_distinct(sizes: Seq<u64>, truncation: Option<u64>)
    requires
        lattice::volume(sizes) <= u64::MAX,
    ensures
        shuffle_order(IndexFnV::Lattice(sizes), truncation).len() == lattice::limited(
            lattice::positions(sizes),
            truncation,
        ).len(),
        shuffle_order(IndexFnV::Lattice(sizes), truncation).no_duplicates(),
        forall|i: int|
            0 <= i < shuffle_order(IndexFnV::Lattice(sizes), truncation).len()
                ==> lattice::inside(
                #[trigger] shuffle_order(IndexFnV::Lattice(sizes), truncation)[i],
                sizes,
            ),
{
    let idx = IndexFnV::Lattice(sizes);
    let total = lattice::volume(sizes) as u64;
    let n = match truncation {
        Some(t) => if t < total {
            t
        } else {
            total
        },
        None => total,
    };
    if n > 0 {
        let all = counting(total as nat);
        assert(all.no_duplicates());
        let places = shuffled_places(total, n);
        if n == total {
            prng::law_shuffle_permutes(all, stream_for(total));
            lemma_permutation_distinct(all, places);
        } else {
            lemma_picks_distinct(all, stream_for(total), n as nat);
        }
        let order = shuffle_order(idx, truncation);
        assert forall|i: int| 0 <= i < n implies places[i] < total by {
            assert(all.contains(places[i]));
        }
        assert forall|i: int| 0 <= i < order.len() implies lattice::inside(
            #[trigger] order[i],
            sizes,
        ) by {
            lattice::law_place_of_digits(places[i] as nat, sizes);
        }
        assert forall|a: int, b: int|
            0 <= a < order.len() && 0 <= b < order.len() && a != b implies order[a] != order[b] by {
            lattice::law_place_of_digits(places[a] as nat, sizes);
            lattice::law_place_of_digits(places[b] as nat, sizes);
            assert(places[a] != places[b]);
        }
    }
}

/// A shuffle of a whole grid is a rearrangement of its positions.
pub proof fn law_shuffle_whole(sizes: Seq<u64>)
    requires
        lattice::volume(sizes) <= u64::MAX,
    ensures
        shuffle_order(IndexFnV::Lattice(sizes), None).to_multiset() =~= lattice::positions(
            sizes,
        ).to_multiset(),
{
    broadcast use vstd::seq_lib::group_to_multiset_ensures;

    let order = shuffle_order(IndexFnV::Lattice(sizes), None);
    let all = lattice::positions(sizes);
    let total = lattice::volume(sizes) as u64;
    law_shuffle_distinct(sizes, None);
    lattice::law_positions_distinct(sizes);
    if total > 0 {
        let plain = counting(total as nat);
        let places = shuffled_places(total, total);
        prng::law_shuffle_permutes(plain, stream_for(total));
        lemma_permutation_distinct(plain, places);
        assert forall|x: Seq<u64>| all.contains(x) <==> order.contains(x) by {
            if all.contains(x) {
                let i = choose|i: int| 0 <= i < all.len() && all[i] == x;
                assert(plain[i] == i as u64);
                vstd::seq_lib::to_multiset_contains(plain, i as u64);
                vstd::seq_lib::to_multiset_contains(places, i as u64);
                let j = choose|j: int| 0 <= j < places.len() && places[j] == i as u64;
                assert(order[j] == lattice::digits(places[j] as nat, sizes));
            }
            if order.contains(x) {
                let j = choose|j: int| 0 <= j < order.len() && order[j] == x;
                assert(plain.contains(places[j]));
                assert(all[places[j] as int] == x);
            }
        }
        all.lemma_multiset_has_no_duplicates();
        order.lemma_multiset_has_no_duplicates();
        assert forall|x: Seq<u64>| order.to_multiset().count(x) == all.to_multiset().count(x) by {
            vstd::seq_lib::to_multiset_contains(order, x);
            vstd::seq_lib::to_multiset_contains(all, x);
        }
        assert(order.to_multiset() =~= all.to_multiset());
    } else {
        assert(order =~= all);
    }
}

/// A rearrangement of different numbers has different numbers, the same
/// ones.
proof fn lemma_permutation_distinct(a: Seq<u64>, b: Seq<u64>)
    requires
        a.no_duplicates(),
        b.to_multiset() =~= a.to_multiset(),
    ensures
        b.no_duplicates(),
        b.len() == a.len(),
        forall|i: int| 0 <= i < b.len() ==> a.contains(#[trigger] b[i]),
{
    broadcast use vstd::seq_lib::group_to_multiset_ensures;

    vstd::seq_lib::to_multiset_len(a);
    vstd::seq_lib::to_multiset_len(b);
    a.lemma_multiset_has_no_duplicates();
    b.lemma_multiset_has_no_duplicates_conv();
    assert forall|i: int| 0 <= i < b.len() implies a.contains(#[trigger] b[i]) by {
        vstd::seq_lib::to_multiset_contains(b, b[i]);
        vstd::seq_lib::to_multiset_contains(a, b[i]);
    }
}

} // verus!
