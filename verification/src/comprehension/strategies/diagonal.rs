//! Ascending and descending index sums.
//!
//! The positions of a grid grouped by the sum of their indices, in
//! lexicographic order within a group. The ascending order is Cantor's
//! enumeration by anti-diagonals.
use super::{
    index_fn_size, index_fn_supports_lookup, lattice, lex, look_up, EvaluatedInput, MultiIndex,
    Strategy,
};
use crate::comprehension::metadata::{IndexFn, IndexFnV};
use crate::comprehension::strategy::StrategyName;
use crate::comprehension::tuple;
use crate::comprehension::tuple::{Tuple, TupleV};
use vstd::prelude::*;

verus! {

/// The largest index sum of a grid without an empty axis.
pub open spec fn top_sum(sizes: Seq<u64>) -> nat
    decreases sizes.len(),
{
    if sizes.len() == 0 {
        0
    } else {
        (if sizes[0] == 0 {
            0
        } else {
            (sizes[0] - 1) as nat
        }) + top_sum(sizes.drop_first())
    }
}

/// The index sum of a multi-index.
pub open spec fn index_sum() -> spec_fn(Seq<u64>) -> int {
    |mi: Seq<u64>| super::total_of(mi) as int
}

/// The sum of the group at place `i`: the sums ascend from zero, or
/// descend from `top`.
pub open spec fn sum_order(top: nat, descending: bool) -> spec_fn(int) -> int {
    |i: int|
        if descending {
            top - i
        } else {
            i
        }
}

/// The positions of a grid by index sum.
pub open spec fn by_sum(sizes: Seq<u64>, descending: bool) -> Seq<Seq<u64>> {
    lattice::grouped(
        lattice::positions(sizes),
        index_sum(),
        sum_order(top_sum(sizes), descending),
        top_sum(sizes) + 1,
    )
}

/// The multi-indices of a space by index sum. Other spaces than grids have
/// one axis and are counted through; a grid without axes has no order.
pub open spec fn diagonal_order(idx: IndexFnV, truncation: Option<u64>, descending: bool) -> Seq<
    Seq<u64>,
> {
    match idx {
        IndexFnV::Lattice(sizes) => if sizes.len() == 0 {
            Seq::empty()
        } else {
            lattice::limited(by_sum(sizes, descending), truncation)
        },
        _ => lattice::limited(lex::lex_order(idx), truncation),
    }
}

/// A grid has no index sum as large as the number of its positions, where it
/// has any.
proof fn lemma_top_sum_small(sizes: Seq<u64>)
    requires
        lattice::volume(sizes) > 0,
    ensures
        top_sum(sizes) < lattice::volume(sizes),
    decreases sizes.len(),
{
    if sizes.len() > 0 {
        let a = sizes[0] as int;
        let rest = sizes.drop_first();
        let v = lattice::volume(rest) as int;
        assert(a > 0 && v > 0) by (nonlinear_arith)
            requires
                a * v > 0,
                a >= 0,
                v >= 0,
        ;
        lemma_top_sum_small(rest);
        assert(a - 1 + v <= a * v) by (nonlinear_arith)
            requires
                a > 0,
                v > 0,
        ;
    }
}

/// What a diagonal strategy gives.
pub open spec fn walked(
    tuples: Seq<TupleV>,
    idx: IndexFnV,
    truncation: Option<u64>,
    descending: bool,
) -> Seq<TupleV> {
    if super::has_continuous(idx) {
        lattice::limited(tuples, truncation)
    } else {
        super::looked_up(diagonal_order(idx, truncation, descending), idx, tuples)
    }
}

/// Ascending index sums.
pub struct Diagonal;

/// Descending index sums.
pub struct Antidiagonal;

impl Strategy for Diagonal {
    open spec fn named(&self) -> StrategyName {
        StrategyName::Diagonal
    }

    open spec fn accepts(&self, idx: Option<IndexFnV>) -> bool {
        idx matches Some(i) && !super::has_continuous(i)
    }

    open spec fn closed_form(&self, idx: IndexFnV) -> bool {
        idx is Lattice
    }

    open spec fn ordered(
        &self,
        tuples: Seq<TupleV>,
        idx: IndexFnV,
        truncation: Option<u64>,
    ) -> Seq<TupleV> {
        walked(tuples, idx, truncation, false)
    }

    open spec fn within_limits(&self, idx: IndexFnV) -> bool {
        super::countable(idx)
    }

    fn name(&self) -> StrategyName {
        StrategyName::Diagonal
    }

    fn accepts_input(&self, idx: Option<&IndexFn>) -> bool {
        match idx {
            None => false,
            Some(i) => !i.has_continuous_axis(),
        }
    }

    fn has_closed_form_for(&self, idx: &IndexFn) -> bool {
        matches!(idx, IndexFn::Lattice { .. })
    }

    fn apply(&self, input: &EvaluatedInput, truncation: Option<u64>) -> Vec<Tuple> {
        walk(input, truncation, false)
    }
}

impl Strategy for Antidiagonal {
    open spec fn named(&self) -> StrategyName {
        StrategyName::Antidiagonal
    }

    open spec fn accepts(&self, idx: Option<IndexFnV>) -> bool {
        idx matches Some(i) && !super::has_continuous(i)
    }

    open spec fn closed_form(&self, idx: IndexFnV) -> bool {
        idx is Lattice
    }

    open spec fn ordered(
        &self,
        tuples: Seq<TupleV>,
        idx: IndexFnV,
        truncation: Option<u64>,
    ) -> Seq<TupleV> {
        walked(tuples, idx, truncation, true)
    }

    open spec fn within_limits(&self, idx: IndexFnV) -> bool {
        super::countable(idx)
    }

    fn name(&self) -> StrategyName {
        StrategyName::Antidiagonal
    }

    fn accepts_input(&self, idx: Option<&IndexFn>) -> bool {
        match idx {
            None => false,
            Some(i) => !i.has_continuous_axis(),
        }
    }

    fn has_closed_form_for(&self, idx: &IndexFn) -> bool {
        matches!(idx, IndexFn::Lattice { .. })
    }

    fn apply(&self, input: &EvaluatedInput, truncation: Option<u64>) -> Vec<Tuple> {
        walk(input, truncation, true)
    }
}

/// The tuples of `input` by index sum.
fn walk(input: &EvaluatedInput, truncation: Option<u64>, descending: bool) -> (r: Vec<Tuple>)
    requires
        super::countable(input.index_fn@),
    ensures
        tuple::tuple_views(r@) == walked(
            tuple::tuple_views(input.tuples@),
            input.index_fn@,
            truncation,
            descending,
        ),
{
    if index_fn_supports_lookup(&input.index_fn) {
        let mis: Vec<MultiIndex> = diagonal_multi_indices(&input.index_fn, truncation, descending);
        look_up(&mis, input)
    } else {
        naive_lex_prefix(&input.tuples, truncation)
    }
}

/// The first tuples, in the order they have.
fn naive_lex_prefix(input: &Vec<Tuple>, truncation: Option<u64>) -> (r: Vec<Tuple>)
    ensures
        tuple::tuple_views(r@) == lattice::limited(tuple::tuple_views(input@), truncation),
{
    match truncation {
        Some(n) => tuple::copy_prefix(input, n),
        None => tuple::copy_tuples(input),
    }
}

/// The multi-indices of `idx` by index sum.
pub fn diagonal_multi_indices(
    idx: &IndexFn,
    truncation: Option<u64>,
    descending: bool,
) -> (r: Vec<MultiIndex>)
    requires
        super::countable(idx@),
    ensures
        lattice::rows(r@) == diagonal_order(idx@, truncation, descending),
{
    let total: u64 = index_fn_size(idx);
    let n: u64 = match truncation {
        Some(t) => if t < total {
            t
        } else {
            total
        },
        None => total,
    };
    match idx {
        IndexFn::Lattice { axis_sizes } => {
            let r: Vec<MultiIndex> = diagonal_walk(axis_sizes, n, descending);
            proof {
                lemma_by_sum_len(axis_sizes@, descending);
                let all = by_sum(axis_sizes@, descending);
                assert(all.take(all.len() as int) =~= all);
            }
            r
        },
        _ => lex::lex_multi_indices(idx, truncation),
    }
}

/// The first `n` positions of a grid by index sum.
fn diagonal_walk(axis_sizes: &Vec<u64>, n: u64, descending: bool) -> (r: Vec<MultiIndex>)
    requires
        n <= lattice::volume(axis_sizes@) <= u64::MAX,
    ensures
        lattice::rows(r@) == if axis_sizes@.len() == 0 {
            Seq::<Seq<u64>>::empty()
        } else {
            by_sum(axis_sizes@, descending).take(n as int)
        },
{
    let mut out: Vec<MultiIndex> = Vec::new();
    assert(lattice::rows(out@) =~= Seq::<Seq<u64>>::empty());
    if axis_sizes.len() == 0 || n == 0 {
        assert(by_sum(axis_sizes@, descending).take(0) =~= Seq::<Seq<u64>>::empty());
        return out;
    }
    proof {
        lemma_top_sum_small(axis_sizes@);
    }
    assert(axis_sizes@.skip(0) =~= axis_sizes@);
    let max_sum: u64 = sum_above(axis_sizes, 0);
    let ghost sizes = axis_sizes@;
    let ghost top = top_sum(sizes);
    let ghost order = sum_order(top, descending);
    let ghost pos = lattice::positions(sizes);
    let mut k: u64 = 0;
    while k <= max_sum
        invariant
            sizes == axis_sizes@,
            sizes.len() > 0,
            max_sum == top,
            top == top_sum(sizes),
            max_sum < u64::MAX,
            order == sum_order(top, descending),
            pos == lattice::positions(sizes),
            k <= max_sum + 1,
            n <= lattice::volume(sizes),
            lattice::rows(out@) == lattice::grouped(pos, index_sum(), order, k as nat),
        decreases max_sum + 1 - k,
    {
        let s: u64 = if descending {
            max_sum - k
        } else {
            k
        };
        let mut current: Vec<u64> = Vec::new();
        assert(sizes.skip(0) =~= sizes);
        enumerate_index_sum(axis_sizes, s, &mut current, &mut out);
        proof {
            assert(lattice::completions(Seq::<u64>::empty(), sizes) =~= pos) by {
                assert forall|i: int| 0 <= i < pos.len() implies Seq::<u64>::empty()
                    + lattice::digits(i as nat, sizes) == pos[i] by {
                    assert(Seq::<u64>::empty() + lattice::digits(i as nat, sizes)
                        =~= lattice::digits(i as nat, sizes));
                }
            }
            assert(order(k as int) == s as int);
        }
        k = k + 1;
        if out.len() as u64 >= n {
            proof {
                lemma_grouped_prefix(pos, index_sum(), order, k as nat, top + 1);
                let done = lattice::grouped(pos, index_sum(), order, k as nat);
                assert(by_sum(sizes, descending).take(n as int) =~= done.take(n as int));
                lemma_rows_truncate(out@, n as int);
            }
            out.truncate(n as usize);
            assert(lattice::rows(out@) =~= by_sum(sizes, descending).take(n as int));
            return out;
        }
    }
    proof {
        lemma_by_sum_len(sizes, descending);
        assert(lattice::rows(out@).len() == out@.len());
        lemma_rows_truncate(out@, n as int);
    }
    out.truncate(n as usize);
    out
}

proof fn lemma_rows_truncate(s: Seq<Vec<u64>>, n: int)
    requires
        0 <= n <= s.len(),
    ensures
        lattice::rows(s.take(n)) == lattice::rows(s).take(n),
        lattice::rows(s.subrange(0, n)) == lattice::rows(s).take(n),
{
    assert(lattice::rows(s.take(n)) =~= lattice::rows(s).take(n));
    assert(lattice::rows(s.subrange(0, n)) =~= lattice::rows(s).take(n));
}

/// The first groups are a prefix of more groups.
proof fn lemma_grouped_prefix<A>(
    s: Seq<A>,
    key: spec_fn(A) -> int,
    order: spec_fn(int) -> int,
    k: nat,
    m: nat,
)
    requires
        k <= m,
    ensures
        lattice::grouped(s, key, order, k).len() <= lattice::grouped(s, key, order, m).len(),
        lattice::grouped(s, key, order, m).take(
            lattice::grouped(s, key, order, k).len() as int,
        ) == lattice::grouped(s, key, order, k),
    decreases m,
{
    let a = lattice::grouped(s, key, order, k);
    if k == m {
        assert(a.take(a.len() as int) =~= a);
    } else {
        lemma_grouped_prefix(s, key, order, k, (m - 1) as nat);
        let b = lattice::grouped(s, key, order, (m - 1) as nat);
        assert(lattice::grouped(s, key, order, m).take(a.len() as int) =~= b.take(a.len() as int));
    }
}

/// The sum of the largest indices of the axes from `from` on.
fn sum_above(axis_sizes: &Vec<u64>, from: usize) -> (r: u64)
    requires
        from <= axis_sizes@.len(),
        top_sum(axis_sizes@.skip(from as int)) <= u64::MAX,
    ensures
        r == top_sum(axis_sizes@.skip(from as int)),
{
    let mut acc: u64 = 0;
    let mut i: usize = axis_sizes.len();
    assert(axis_sizes@.skip(i as int) =~= Seq::<u64>::empty());
    while i > from
        invariant
            from <= i <= axis_sizes@.len(),
            acc == top_sum(axis_sizes@.skip(i as int)),
            top_sum(axis_sizes@.skip(from as int)) <= u64::MAX,
        decreases i,
    {
        i = i - 1;
        let ghost rest = axis_sizes@.skip(i as int);
        assert(rest.drop_first() =~= axis_sizes@.skip(i + 1));
        proof {
            lemma_top_sum_suffix(axis_sizes@.skip(from as int), i - from);
            assert(axis_sizes@.skip(from as int).skip(i - from) =~= rest);
        }
        acc = axis_sizes[i].saturating_sub(1) + acc;
    }
    acc
}

/// Fewer axes have no larger top sum.
proof fn lemma_top_sum_suffix(sizes: Seq<u64>, k: int)
    requires
        0 <= k <= sizes.len(),
    ensures
        top_sum(sizes.skip(k)) <= top_sum(sizes),
    decreases k,
{
    if k == 0 {
        assert(sizes.skip(0) =~= sizes);
    } else {
        lemma_top_sum_suffix(sizes.drop_first(), k - 1);
        assert(sizes.drop_first().skip(k - 1) =~= sizes.skip(k));
    }
}

/// The sum of a run of numbers of which the last is `v`.
proof fn lemma_total_push(s: Seq<u64>, v: u64)
    ensures
        super::total_of(s.push(v)) == super::total_of(s) + v,
{
    assert(s.push(v).drop_last() =~= s);
}

proof fn lemma_total_concat(a: Seq<u64>, b: Seq<u64>)
    ensures
        super::total_of(a + b) == super::total_of(a) + super::total_of(b),
    decreases b.len(),
{
    if b.len() == 0 {
        assert(a + b =~= a);
    } else {
        lemma_total_concat(a, b.drop_last());
        assert((a + b).drop_last() =~= a + b.drop_last());
    }
}

/// The sum of a position lies between zero and the top sum.
proof fn lemma_inside_sum(mi: Seq<u64>, sizes: Seq<u64>)
    requires
        lattice::inside(mi, sizes),
    ensures
        super::total_of(mi) <= top_sum(sizes),
    decreases sizes.len(),
{
    if sizes.len() == 0 {
        assert(mi =~= Seq::<u64>::empty());
    } else {
        let rest = sizes.drop_first();
        let tail = mi.drop_first();
        assert forall|k: int| 0 <= k < rest.len() implies #[trigger] tail[k] < rest[k] by {
            assert(mi[k + 1] < sizes[k + 1]);
        }
        lemma_inside_sum(tail, rest);
        assert(mi[0] < sizes[0]);
        lemma_total_concat(seq![mi[0]], tail);
        assert(seq![mi[0]] + tail =~= mi);
        lemma_total_push(Seq::<u64>::empty(), mi[0]);
        assert(Seq::<u64>::empty().push(mi[0]) =~= seq![mi[0]]);
    }
}

/// The completions of a prefix sum to between the prefix's sum and that
/// plus the top sum of the open axes.
proof fn lemma_completion_sum(prefix: Seq<u64>, rest: Seq<u64>, i: int)
    requires
        0 <= i < lattice::completions(prefix, rest).len(),
    ensures
        super::total_of(prefix) <= super::total_of(lattice::completions(prefix, rest)[i])
            <= super::total_of(prefix) + top_sum(rest),
{
    lattice::law_place_of_digits(i as nat, rest);
    lemma_inside_sum(lattice::digits(i as nat, rest), rest);
    lemma_total_concat(prefix, lattice::digits(i as nat, rest));
}

/// No completion is kept where none can have the sum.
proof fn lemma_no_completion(prefix: Seq<u64>, rest: Seq<u64>, target: int)
    requires
        super::total_of(prefix) > target || super::total_of(prefix) + top_sum(rest) < target,
    ensures
        lattice::group(lattice::completions(prefix, rest), index_sum(), target) == Seq::<
            Seq<u64>,
        >::empty(),
{
    let all = lattice::completions(prefix, rest);
    assert forall|i: int| 0 <= i < all.len() implies index_sum()(#[trigger] all[i]) != target by {
        lemma_completion_sum(prefix, rest, i);
    }
    lattice::lemma_group_none(all, index_sum(), target);
}

/// Append the completions of `current` whose index sum is `target_sum`, in
/// order.
fn enumerate_index_sum(
    axis_sizes: &Vec<u64>,
    target_sum: u64,
    current: &mut Vec<u64>,
    out: &mut Vec<MultiIndex>,
)
    requires
        old(current)@.len() <= axis_sizes@.len(),
        top_sum(axis_sizes@) < u64::MAX,
        super::total_of(old(current)@) <= target_sum,
        super::total_of(old(current)@) + top_sum(axis_sizes@.skip(old(current)@.len() as int))
            <= u64::MAX,
    ensures
        final(current)@ == old(current)@,
        lattice::rows(final(out)@) == lattice::rows(old(out)@) + lattice::group(
            lattice::completions(
                old(current)@,
                axis_sizes@.skip(old(current)@.len() as int),
            ),
            index_sum(),
            target_sum as int,
        ),
    decreases axis_sizes@.len() - old(current)@.len(),
{
    let dim: usize = axis_sizes.len();
    let ghost prefix = current@;
    let ghost rest = axis_sizes@.skip(prefix.len() as int);
    let ghost start = lattice::rows(out@);
    let ghost goal = target_sum as int;
    let current_sum: u64 = sum_of(current);
    if current.len() == dim {
        assert(rest =~= Seq::<u64>::empty());
        assert(lattice::completions(prefix, rest) =~= seq![prefix]) by {
            assert(lattice::volume(rest) == 1);
            assert(prefix + lattice::digits(0, rest) =~= prefix);
        }
        proof {
            lattice::lemma_group_one(prefix, index_sum(), goal);
        }
        if current_sum == target_sum {
            let ghost before = out@;
            let mi: Vec<u64> = crate::value::same_items(current);
            out.push(mi);
            assert(lattice::rows(out@) =~= lattice::rows(before).push(prefix));
        }
        assert(lattice::rows(out@) =~= start + lattice::group(seq![prefix], index_sum(), goal));
        return ;
    }
    let at: usize = current.len();
    let ghost tail = rest.drop_first();
    assert(tail =~= axis_sizes@.skip(at + 1));
    assert(top_sum(rest) >= top_sum(tail));
    let max_after_this: u64 = sum_above(axis_sizes, at + 1);
    let size: u64 = axis_sizes[at];
    assert(size == rest[0]);
    let ghost w = lattice::volume(tail) as int;
    let ghost all = lattice::completions(prefix, rest);
    let mut v: u64 = 0;
    proof {
        assert(0 * w == 0);
        assert(all.take(0) =~= Seq::<Seq<u64>>::empty());
        lattice::lemma_group_none(all.take(0), index_sum(), goal);
        assert(lattice::rows(out@) =~= start + lattice::group(all.take(0), index_sum(), goal));
    }
    let mut stop: bool = false;
    while v < size && !stop
        invariant
            v <= size,
            dim == axis_sizes@.len(),
            at == prefix.len(),
            at == old(current)@.len(),
            at < dim,
            current@ == prefix,
            rest == axis_sizes@.skip(at as int),
            tail == rest.drop_first(),
            tail == axis_sizes@.skip(at + 1),
            size == rest[0],
            w == lattice::volume(tail),
            all == lattice::completions(prefix, rest),
            goal == target_sum as int,
            current_sum == super::total_of(prefix),
            current_sum <= target_sum,
            max_after_this == top_sum(tail),
            top_sum(axis_sizes@) < u64::MAX,
            super::total_of(prefix) + top_sum(rest) <= u64::MAX,
            0 <= v * w <= all.len(),
            stop ==> current_sum + v > target_sum,
            lattice::rows(out@) == start + lattice::group(all.take(v * w), index_sum(), goal),
        decreases size - v + (if stop {
            0int
        } else {
            1
        }),
    {
        assert(top_sum(rest) == (size - 1) as nat + top_sum(tail));
        let new_sum: u64 = current_sum + v;
        if new_sum > target_sum {
            stop = true;
        } else {
            proof {
                lattice::lemma_completions_block(prefix, rest, v as int);
                lemma_total_push(prefix, v);
                let (a, b) = (all.take(v * w), all.subrange(v * w, (v + 1) * w));
                assert(all.take((v + 1) * w) =~= a + b);
                lattice::lemma_group_concat(a, b, index_sum(), goal);
            }
            if new_sum + max_after_this < target_sum {
                proof {
                    lemma_no_completion(prefix.push(v), tail, goal);
                    assert(lattice::rows(out@) =~= start + lattice::group(
                        all.take((v + 1) * w),
                        index_sum(),
                        goal,
                    ));
                }
            } else {
                let ghost before = lattice::rows(out@);
                current.push(v);
                enumerate_index_sum(axis_sizes, target_sum, current, out);
                let popped: Option<u64> = current.pop();
                proof {
                    assert(current@ =~= prefix);
                    assert(lattice::rows(out@) =~= start + lattice::group(
                        all.take((v + 1) * w),
                        index_sum(),
                        goal,
                    ));
                }
            }
            v = v + 1;
        }
    }
    proof {
        // Every block from `v` on sums beyond the target.
        lemma_rest_filtered(prefix, rest, v as nat, goal);
        assert(all =~= all.take(v * w) + all.skip(v * w));
        lattice::lemma_group_concat(all.take(v * w), all.skip(v * w), index_sum(), goal);
        assert(lattice::rows(out@) =~= start + lattice::group(all, index_sum(), goal));
    }
}

/// From the block `v` on, where the prefix extended by `v` is beyond the
/// target or there is no such block, nothing is kept.
proof fn lemma_rest_filtered(prefix: Seq<u64>, rest: Seq<u64>, v: nat, target: int)
    requires
        rest.len() > 0,
        v <= rest[0],
        v == rest[0] || super::total_of(prefix) + v > target,
    ensures
        0 <= v * lattice::volume(rest.drop_first()) <= lattice::completions(prefix, rest).len(),
        lattice::group(
            lattice::completions(prefix, rest).skip(
                (v * lattice::volume(rest.drop_first())) as int,
            ),
            index_sum(),
            target,
        ) == Seq::<Seq<u64>>::empty(),
    decreases rest[0] - v,
{
    let tail = rest.drop_first();
    let w = lattice::volume(tail);
    let all = lattice::completions(prefix, rest);
    if v == rest[0] {
        assert(all.skip((v * w) as int) =~= Seq::<Seq<u64>>::empty());
        lattice::lemma_group_none(all.skip((v * w) as int), index_sum(), target);
    } else {
        lemma_rest_filtered(prefix, rest, v + 1, target);
        lattice::lemma_completions_block(prefix, rest, v as int);
        lemma_total_push(prefix, v as u64);
        lemma_no_completion(prefix.push(v as u64), tail, target);
        let a = all.subrange((v * w) as int, ((v + 1) * w) as int);
        let b = all.skip(((v + 1) * w) as int);
        assert(all.skip((v * w) as int) =~= a + b);
        lattice::lemma_group_concat(a, b, index_sum(), target);
        assert(lattice::group(a, index_sum(), target) + lattice::group(b, index_sum(), target)
            =~= Seq::<Seq<u64>>::empty());
    }
}

/// The sum of the numbers of `s`.
fn sum_of(s: &Vec<u64>) -> (r: u64)
    requires
        super::total_of(s@) <= u64::MAX,
    ensures
        r == super::total_of(s@),
{
    let mut acc: u64 = 0;
    let mut i: usize = 0;
    assert(s@.take(0) =~= Seq::<u64>::empty());
    while i < s.len()
        invariant
            i <= s@.len(),
            acc == super::total_of(s@.take(i as int)),
            super::total_of(s@) <= u64::MAX,
        decreases s.len() - i,
    {
        assert(s@.take(i + 1).drop_last() =~= s@.take(i as int));
        proof {
            super::lemma_total_grows(s@, i + 1);
        }
        acc = acc + s[i];
        i = i + 1;
    }
    assert(s@.take(i as int) =~= s@);
    acc
}

/// The order by index sum is a rearrangement of the grid's positions:
/// every position comes once.
pub proof fn law_by_sum_permutes(sizes: Seq<u64>, descending: bool)
    ensures
        by_sum(sizes, descending).to_multiset() =~= lattice::positions(sizes).to_multiset(),
{
    let top = top_sum(sizes);
    let order = sum_order(top, descending);
    let pos = lattice::positions(sizes);
    let rank = |mi: Seq<u64>|
        if descending {
            top - index_sum()(mi)
        } else {
            index_sum()(mi)
        };
    assert forall|m: int| 0 <= m < pos.len() implies 0 <= rank(#[trigger] pos[m]) < top + 1
        && order(rank(pos[m])) == index_sum()(pos[m]) by {
        lattice::law_place_of_digits(m as nat, sizes);
        lemma_inside_sum(pos[m], sizes);
    }
    lattice::lemma_grouped_permutes(pos, index_sum(), order, top + 1, rank);
}

proof fn lemma_by_sum_len(sizes: Seq<u64>, descending: bool)
    ensures
        by_sum(sizes, descending).len() == lattice::volume(sizes),
{
    law_by_sum_permutes(sizes, descending);
    vstd::seq_lib::to_multiset_len(by_sum(sizes, descending));
    vstd::seq_lib::to_multiset_len(lattice::positions(sizes));
}

/// Along the diagonal order the index sums never fall; along the
/// antidiagonal order they never rise.
pub proof fn law_sums_monotone(sizes: Seq<u64>, descending: bool, m: int, n: int)
    requires
        0 <= m <= n < by_sum(sizes, descending).len(),
    ensures
        !descending ==> super::total_of(by_sum(sizes, descending)[m]) <= super::total_of(
            by_sum(sizes, descending)[n],
        ),
        descending ==> super::total_of(by_sum(sizes, descending)[m]) >= super::total_of(
            by_sum(sizes, descending)[n],
        ),
{
    let top = top_sum(sizes);
    let order = sum_order(top, descending);
    lattice::lemma_grouped_ordered(
        lattice::positions(sizes),
        index_sum(),
        order,
        top + 1,
        !descending,
    );
    let all = by_sum(sizes, descending);
    assert(if !descending {
        index_sum()(all[m]) <= index_sum()(all[n])
    } else {
        index_sum()(all[m]) >= index_sum()(all[n])
    });
}

/// Along either order, positions with one index sum are in lexicographic
/// order.
pub proof fn law_equal_sums_in_order(sizes: Seq<u64>, descending: bool, m: int, n: int)
    requires
        0 <= m < n < by_sum(sizes, descending).len(),
        super::total_of(by_sum(sizes, descending)[m]) == super::total_of(
            by_sum(sizes, descending)[n],
        ),
    ensures
        lattice::earlier(by_sum(sizes, descending)[m], by_sum(sizes, descending)[n]),
{
    let top = top_sum(sizes);
    lattice::law_positions_in_order(sizes);
    lattice::lemma_grouped_in_order(
        lattice::positions(sizes),
        index_sum(),
        sum_order(top, descending),
        top + 1,
        !descending,
        m,
        n,
    );
}

} // verus!
