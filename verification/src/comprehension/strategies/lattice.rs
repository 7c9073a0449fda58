//! Positions in a grid.
//!
//! A grid is given by the sizes of its axes. Its positions are multi-indices,
//! one number below the size for each axis, in lexicographic order: the last
//! axis varies fastest. A multi-index and its place in that order determine
//! each other.
use vstd::arithmetic::div_mod::*;
use vstd::arithmetic::mul::*;
use vstd::prelude::*;

verus! {

/// The number of positions of a grid.
pub open spec fn volume(sizes: Seq<u64>) -> nat
    decreases sizes.len(),
{
    if sizes.len() == 0 {
        1
    } else {
        sizes[0] as nat * volume(sizes.drop_first())
    }
}

/// The multi-index at place `i`: the digits of `i` in the mixed radix that
/// the sizes give.
pub open spec fn digits(i: nat, sizes: Seq<u64>) -> Seq<u64> {
    Seq::new(
        sizes.len(),
        |k: int| ((i / volume(sizes.skip(k + 1))) % (sizes[k] as nat)) as u64,
    )
}

/// The place of a multi-index.
pub open spec fn place(mi: Seq<u64>, sizes: Seq<u64>) -> nat
    decreases sizes.len(),
{
    if sizes.len() == 0 {
        0
    } else {
        mi[0] as nat * volume(sizes.drop_first()) + place(mi.drop_first(), sizes.drop_first())
    }
}

/// Whether `mi` is a position of the grid.
pub open spec fn inside(mi: Seq<u64>, sizes: Seq<u64>) -> bool {
    mi.len() == sizes.len() && forall|k: int| 0 <= k < sizes.len() ==> #[trigger] mi[k] < sizes[k]
}

/// No axis is empty.
pub open spec fn no_empty_axis(sizes: Seq<u64>) -> bool {
    forall|k: int| 0 <= k < sizes.len() ==> #[trigger] sizes[k] > 0
}

/// Every completion of `prefix` over the axes `rest`, in order.
pub open spec fn completions(prefix: Seq<u64>, rest: Seq<u64>) -> Seq<Seq<u64>> {
    Seq::new(volume(rest), |i: int| prefix + digits(i as nat, rest))
}

/// Every position of the grid, in lexicographic order.
pub open spec fn positions(sizes: Seq<u64>) -> Seq<Seq<u64>> {
    Seq::new(volume(sizes), |i: int| digits(i as nat, sizes))
}

/// The first `n` elements, or all where there are fewer.
pub open spec fn prefix_of<A>(s: Seq<A>, n: nat) -> Seq<A> {
    if n <= s.len() {
        s.take(n as int)
    } else {
        s
    }
}

/// The first elements up to an optional limit.
pub open spec fn limited<A>(s: Seq<A>, limit: Option<u64>) -> Seq<A> {
    match limit {
        Some(n) => prefix_of(s, n as nat),
        None => s,
    }
}

/// The contents of a run of vectors.
pub open spec fn rows(s: Seq<Vec<u64>>) -> Seq<Seq<u64>> {
    Seq::new(s.len(), |i: int| s[i]@)
}

// ---------------------------------------------------------------------
// Facts
// ---------------------------------------------------------------------

/// The volume of a grid is the product of the volumes of its halves.
pub proof fn lemma_volume_split(sizes: Seq<u64>, k: int)
    requires
        0 <= k <= sizes.len(),
    ensures
        volume(sizes) == volume(sizes.take(k)) * volume(sizes.skip(k)),
    decreases sizes.len(),
{
    if k == 0 {
        assert(sizes.skip(0) =~= sizes);
        assert(sizes.take(0) =~= Seq::<u64>::empty());
        assert(volume(sizes.take(0)) == 1);
        assert(1 * volume(sizes) == volume(sizes)) by (nonlinear_arith);
    } else {
        let rest = sizes.drop_first();
        lemma_volume_split(rest, k - 1);
        assert(sizes.take(k).drop_first() =~= rest.take(k - 1));
        assert(sizes.skip(k) =~= rest.skip(k - 1));
        let a = sizes[0] as nat;
        let b = volume(rest.take(k - 1));
        let c = volume(rest.skip(k - 1));
        assert(sizes.take(k)[0] == sizes[0]);
        assert(volume(sizes.take(k)) == a * b);
        assert(volume(sizes) == a * (b * c));
        assert(a * (b * c) == (a * b) * c) by (nonlinear_arith);
    }
}

/// One axis has as many positions as its size.
pub proof fn lemma_volume_one(size: u64)
    ensures
        volume(seq![size]) == size,
{
    let s = seq![size];
    assert(s.drop_first() =~= Seq::<u64>::empty());
    assert(volume(s.drop_first()) == 1);
    assert(volume(s) == s[0] as nat * volume(s.drop_first()));
    assert(size as nat * 1 == size as nat);
}

/// Without an empty axis there is a position.
pub proof fn lemma_volume_positive(sizes: Seq<u64>)
    ensures
        no_empty_axis(sizes) <==> volume(sizes) > 0,
    decreases sizes.len(),
{
    if sizes.len() > 0 {
        let rest = sizes.drop_first();
        lemma_volume_positive(rest);
        let a = sizes[0] as nat;
        let v = volume(rest);
        if no_empty_axis(sizes) {
            assert(sizes[0] > 0);
            assert forall|k: int| 0 <= k < rest.len() implies #[trigger] rest[k] > 0 by {
                assert(sizes[k + 1] > 0);
            }
            assert(a * v > 0) by (nonlinear_arith)
                requires
                    a > 0,
                    v > 0,
            ;
        }
        if a * v > 0 {
            assert(a > 0 && v > 0) by (nonlinear_arith)
                requires
                    a * v > 0,
            ;
            assert forall|k: int| 0 <= k < sizes.len() implies #[trigger] sizes[k] > 0 by {
                if k > 0 {
                    assert(rest[k - 1] > 0);
                }
            }
        }
    }
}

/// The digits of a place inside a block of the first axis: the block's
/// number, then the digits of the place inside the block.
pub proof fn lemma_digits_block(sizes: Seq<u64>, v: nat, j: nat)
    requires
        sizes.len() > 0,
        v < sizes[0],
        j < volume(sizes.drop_first()),
    ensures
        v * volume(sizes.drop_first()) + j < volume(sizes),
        digits(v * volume(sizes.drop_first()) + j, sizes) == seq![v as u64] + digits(
            j,
            sizes.drop_first(),
        ),
{
    let rest = sizes.drop_first();
    let w = volume(rest);
    let i = v * w + j;
    let a = sizes[0] as nat;
    assert(i < a * w) by (nonlinear_arith)
        requires
            i == v * w + j,
            j < w,
            v + 1 <= a,
    ;
    let lhs = digits(i, sizes);
    let rhs = seq![v as u64] + digits(j, rest);
    assert forall|k: int| 0 <= k < sizes.len() implies lhs[k] == rhs[k] by {
        if k == 0 {
            assert(sizes.skip(1) =~= rest);
            lemma_fundamental_div_mod_converse(i as int, w as int, v as int, j as int);
            assert(v % a == v) by {
                lemma_small_mod(v, a);
            }
        } else {
            let tail = sizes.skip(k + 1);
            assert(rest.skip(k) =~= tail);
            let t = volume(tail);
            let s = sizes[k] as nat;
            lemma_volume_split(rest, k - 1);
            lemma_volume_split(rest.skip(k - 1), 1);
            assert(rest.skip(k - 1).skip(1) =~= tail);
            assert(rest.skip(k - 1).take(1) =~= seq![sizes[k]]);
            lemma_volume_one(sizes[k]);
            let x = volume(rest.take(k - 1));
            assert(w == x * (s * t));
            assert(t > 0 && s > 0) by (nonlinear_arith)
                requires
                    w == x * (s * t),
                    w > 0,
            ;
            // i / t == (v * x) * s + j / t
            let q = j / t;
            let r = j % t;
            lemma_fundamental_div_mod(j as int, t as int);
            let m = (v * x) * s + q;
            assert(i == m * t + r) by (nonlinear_arith)
                requires
                    i == v * w + j,
                    w == x * (s * t),
                    j == t * q + r,
                    m == (v * x) * s + q,
            ;
            lemma_fundamental_div_mod_converse(i as int, t as int, m as int, r as int);
            assert(i / t == m);
            assert(m as int == s as int * (v * x) as int + q as int) by (nonlinear_arith)
                requires
                    m == (v * x) * s + q,
            ;
            lemma_mod_multiples_vanish((v * x) as int, q as int, s as int);
        }
    }
    assert(lhs =~= rhs);
}

/// The completions of a prefix begin with those of the prefix extended by
/// 0, then by 1, and so on.
pub proof fn lemma_completions_block(prefix: Seq<u64>, rest: Seq<u64>, v: int)
    requires
        rest.len() > 0,
        0 <= v < rest[0],
    ensures
        ({
            let w = volume(rest.drop_first()) as int;
            &&& 0 <= v * w <= (v + 1) * w <= volume(rest)
            &&& completions(prefix, rest).subrange(v * w, (v + 1) * w) == completions(
                prefix.push(v as u64),
                rest.drop_first(),
            )
        }),
{
    let tail = rest.drop_first();
    let w = volume(tail) as int;
    let a = rest[0] as int;
    assert(0 <= v * w <= (v + 1) * w <= a * w) by (nonlinear_arith)
        requires
            0 <= v < a,
            w >= 0,
    ;
    assert((v + 1) * w == v * w + w) by (nonlinear_arith);
    let lhs = completions(prefix, rest).subrange(v * w, (v + 1) * w);
    let rhs = completions(prefix.push(v as u64), tail);
    assert forall|j: int| 0 <= j < w implies lhs[j] == rhs[j] by {
        lemma_digits_block(rest, v as nat, j as nat);
        assert(lhs[j] == prefix + digits((v * w + j) as nat, rest));
        assert(prefix + (seq![v as u64] + digits(j as nat, tail)) =~= prefix.push(v as u64)
            + digits(j as nat, tail));
    }
    assert(lhs =~= rhs);
}

/// The place of the digits of `i` is `i`, and the digits are inside.
pub proof fn law_place_of_digits(i: nat, sizes: Seq<u64>)
    requires
        i < volume(sizes),
    ensures
        place(digits(i, sizes), sizes) == i,
        inside(digits(i, sizes), sizes),
    decreases sizes.len(),
{
    if sizes.len() > 0 {
        let rest = sizes.drop_first();
        let w = volume(rest);
        let a = sizes[0] as nat;
        assert(w > 0) by (nonlinear_arith)
            requires
                i < a * w,
        ;
        let v = i / w;
        let j = i % w;
        lemma_fundamental_div_mod(i as int, w as int);
        assert(v < a) by (nonlinear_arith)
            requires
                i < a * w,
                i == w * v + j,
                w > 0,
                j >= 0,
        ;
        assert(i == v * w + j) by (nonlinear_arith)
            requires
                i == w * v + j,
        ;
        lemma_digits_block(sizes, v, j);
        law_place_of_digits(j, rest);
        let mi = digits(i, sizes);
        assert(mi.drop_first() =~= digits(j, rest));
        assert forall|k: int| 0 <= k < sizes.len() implies #[trigger] mi[k] < sizes[k] by {
            if k > 0 {
                assert(mi[k] == digits(j, rest)[k - 1]);
                assert(digits(j, rest)[k - 1] < rest[k - 1]);
            }
        }
    } else {
        assert(volume(sizes) == 1);
    }
}

/// The digits of a position's place are the position, and the place is
/// within the grid.
pub proof fn law_digits_of_place(mi: Seq<u64>, sizes: Seq<u64>)
    requires
        inside(mi, sizes),
    ensures
        place(mi, sizes) < volume(sizes),
        digits(place(mi, sizes), sizes) == mi,
    decreases sizes.len(),
{
    if sizes.len() > 0 {
        let rest = sizes.drop_first();
        let tail = mi.drop_first();
        assert forall|k: int| 0 <= k < rest.len() implies #[trigger] tail[k] < rest[k] by {
            assert(mi[k + 1] < sizes[k + 1]);
        }
        law_digits_of_place(tail, rest);
        assert(mi[0] < sizes[0]);
        lemma_digits_block(sizes, mi[0] as nat, place(tail, rest));
        assert(seq![mi[0]] + tail =~= mi);
    } else {
        assert(digits(place(mi, sizes), sizes) =~= mi);
    }
}

/// The positions of a grid are pairwise different.
pub proof fn law_positions_distinct(sizes: Seq<u64>)
    ensures
        positions(sizes).no_duplicates(),
{
    assert forall|i: int, j: int|
        0 <= i < positions(sizes).len() && 0 <= j < positions(sizes).len() && i
            != j implies positions(sizes)[i] != positions(sizes)[j] by {
        law_place_of_digits(i as nat, sizes);
        law_place_of_digits(j as nat, sizes);
    }
}

/// The digits of `i` over one more axis at the end: those of the quotient,
/// then the remainder.
proof fn lemma_digits_last(i: nat, sizes: Seq<u64>, last: u64)
    requires
        last > 0,
        no_empty_axis(sizes),
    ensures
        digits(i, sizes.push(last)) == digits(i / (last as nat), sizes).push(
            (i % (last as nat)) as u64,
        ),
{
    let all = sizes.push(last);
    let l = last as nat;
    let lhs = digits(i, all);
    let rhs = digits(i / l, sizes).push((i % l) as u64);
    assert forall|k: int| 0 <= k < all.len() implies lhs[k] == rhs[k] by {
        if k < sizes.len() {
            let tail = sizes.skip(k + 1);
            assert(all.skip(k + 1) =~= tail.push(last));
            lemma_volume_split(tail.push(last), tail.len() as int);
            assert(tail.push(last).take(tail.len() as int) =~= tail);
            assert(tail.push(last).skip(tail.len() as int) =~= seq![last]);
            lemma_volume_one(last);
            let t = volume(tail);
            assert forall|m: int| 0 <= m < tail.len() implies #[trigger] tail[m] > 0 by {
                assert(sizes[m + k + 1] > 0);
            }
            lemma_volume_positive(tail);
            lemma_div_denominator(i as int, l as int, t as int);
            assert((i / l) / t == i / (t * l)) by {
                assert(l * t == t * l) by (nonlinear_arith);
            }
        } else {
            assert(all.skip(k + 1) =~= Seq::<u64>::empty());
            assert(volume(Seq::<u64>::empty()) == 1);
            assert(i / 1 == i);
        }
    }
    assert(lhs =~= rhs);
}

// ---------------------------------------------------------------------
// Computing
// ---------------------------------------------------------------------

/// The multi-index at place `linear`.
pub fn linear_to_multi(linear: u64, axis_sizes: &Vec<u64>) -> (out: Vec<u64>)
    requires
        no_empty_axis(axis_sizes@),
    ensures
        out@ == digits(linear as nat, axis_sizes@),
{
    let n: usize = axis_sizes.len();
    let mut rev: Vec<u64> = Vec::new();
    let mut rest: u64 = linear;
    let mut i: usize = n;
    assert(axis_sizes@.take(n as int) =~= axis_sizes@);
    assert(digits(rest as nat, axis_sizes@.take(n as int)) + rev@.reverse() =~= digits(
        linear as nat,
        axis_sizes@,
    ));
    while i > 0
        invariant
            i <= n,
            n == axis_sizes@.len(),
            no_empty_axis(axis_sizes@),
            rev@.len() == n - i,
            digits(rest as nat, axis_sizes@.take(i as int)) + rev@.reverse() == digits(
                linear as nat,
                axis_sizes@,
            ),
        decreases i,
    {
        let size: u64 = axis_sizes[i - 1];
        let ghost front = axis_sizes@.take(i - 1);
        let ghost before = rev@;
        assert(axis_sizes@.take(i as int) =~= front.push(size));
        assert(size > 0);
        proof {
            assert forall|k: int| 0 <= k < front.len() implies #[trigger] front[k] > 0 by {
                assert(axis_sizes@[k] > 0);
            }
            lemma_digits_last(rest as nat, front, size);
        }
        rev.push(rest % size);
        proof {
            let d = (rest % size) as u64;
            assert(rev@.reverse() =~= seq![d] + before.reverse());
            assert(digits((rest / size) as nat, front).push(d) + before.reverse() =~= digits(
                (rest / size) as nat,
                front,
            ) + rev@.reverse());
        }
        rest = rest / size;
        i = i - 1;
    }
    assert(axis_sizes@.take(0) =~= Seq::<u64>::empty());
    assert(digits(rest as nat, axis_sizes@.take(0)) =~= Seq::<u64>::empty());
    assert(rev@.reverse() =~= digits(linear as nat, axis_sizes@));
    let mut out: Vec<u64> = Vec::new();
    let mut k: usize = n;
    while k > 0
        invariant
            k <= n,
            rev@.len() == n,
            out@ =~= rev@.reverse().take(n - k),
        decreases k,
    {
        out.push(rev[k - 1]);
        k = k - 1;
    }
    assert(out@ =~= rev@.reverse());
    out
}

/// The place of `mi`, if it is a position of the grid.
pub fn multi_to_linear(mi: &Vec<u64>, axis_sizes: &Vec<u64>) -> (r: Option<u64>)
    requires
        volume(axis_sizes@) <= u64::MAX,
    ensures
        r == (if inside(mi@, axis_sizes@) {
            Some(place(mi@, axis_sizes@) as u64)
        } else {
            None
        }),
        inside(mi@, axis_sizes@) ==> place(mi@, axis_sizes@) < volume(axis_sizes@),
{
    if mi.len() != axis_sizes.len() {
        return None;
    }
    let n: usize = mi.len();
    let mut i: usize = 0;
    while i < n
        invariant
            i <= n,
            n == mi@.len(),
            n == axis_sizes@.len(),
            forall|k: int| 0 <= k < i ==> #[trigger] mi@[k] < axis_sizes@[k],
        decreases n - i,
    {
        if mi[i] >= axis_sizes[i] {
            assert(!(mi@[i as int] < axis_sizes@[i as int]));
            return None;
        }
        i = i + 1;
    }
    proof {
        law_digits_of_place(mi@, axis_sizes@);
        assert forall|k: int| 0 <= k < n implies #[trigger] axis_sizes@[k] > 0 by {
            assert(mi@[k] < axis_sizes@[k]);
        }
    }
    // Horner's rule from the last axis: `unit` is the volume of the axes
    // behind the current one.
    let mut acc: u64 = 0;
    let mut unit: u64 = 1;
    let mut j: usize = n;
    assert(mi@.skip(n as int) =~= Seq::<u64>::empty());
    assert(axis_sizes@.skip(n as int) =~= Seq::<u64>::empty());
    while j > 0
        invariant
            j <= n,
            n == mi@.len(),
            n == axis_sizes@.len(),
            inside(mi@, axis_sizes@),
            volume(axis_sizes@) <= u64::MAX,
            no_empty_axis(axis_sizes@),
            unit == volume(axis_sizes@.skip(j as int)),
            acc == place(mi@.skip(j as int), axis_sizes@.skip(j as int)),
            place(mi@, axis_sizes@) < volume(axis_sizes@),
        decreases j,
    {
        j = j - 1;
        let ghost rest = axis_sizes@.skip(j as int);
        let ghost tail = mi@.skip(j as int);
        proof {
            assert(rest.drop_first() =~= axis_sizes@.skip(j + 1));
            assert(tail.drop_first() =~= mi@.skip(j + 1));
            assert forall|k: int| 0 <= k < rest.len() implies #[trigger] tail[k] < rest[k] by {
                assert(mi@[k + j] < axis_sizes@[k + j]);
            }
            law_digits_of_place(tail, rest);
            lemma_volume_split(axis_sizes@, j as int);
            let x = volume(axis_sizes@.take(j as int));
            let y = volume(rest);
            assert forall|k: int| 0 <= k < j implies #[trigger] axis_sizes@.take(j as int)[k]
                > 0 by {
                assert(axis_sizes@[k] > 0);
            }
            lemma_volume_positive(axis_sizes@.take(j as int));
            assert(y <= x * y) by (nonlinear_arith)
                requires
                    x >= 1,
            ;
            assert(mi@[j as int] as nat * unit as nat <= u64::MAX);
        }
        acc = mi[j] * unit + acc;
        unit = axis_sizes[j] * unit;
    }
    assert(mi@.skip(0) =~= mi@);
    assert(axis_sizes@.skip(0) =~= axis_sizes@);
    Some(acc)
}

/// The first `n` positions of a grid, in order.
pub fn first_positions(axis_sizes: &Vec<u64>, n: u64) -> (out: Vec<Vec<u64>>)
    requires
        n <= volume(axis_sizes@),
    ensures
        rows(out@) == positions(axis_sizes@).take(n as int),
{
    let mut out: Vec<Vec<u64>> = Vec::new();
    let mut i: u64 = 0;
    while i < n
        invariant
            i <= n <= volume(axis_sizes@),
            rows(out@) =~= positions(axis_sizes@).take(i as int),
        decreases n - i,
    {
        proof {
            lemma_volume_positive(axis_sizes@);
        }
        let ghost before = out@;
        let mi: Vec<u64> = linear_to_multi(i, axis_sizes);
        let ghost row = mi@;
        out.push(mi);
        assert(rows(out@) =~= rows(before).push(row));
        i = i + 1;
    }
    out
}

/// Whether no axis is empty.
pub fn has_no_empty_axis(axis_sizes: &Vec<u64>) -> (r: bool)
    ensures
        r == no_empty_axis(axis_sizes@),
{
    let mut i: usize = 0;
    while i < axis_sizes.len()
        invariant
            i <= axis_sizes@.len(),
            forall|k: int| 0 <= k < i ==> #[trigger] axis_sizes@[k] > 0,
        decreases axis_sizes.len() - i,
    {
        if axis_sizes[i] == 0 {
            assert(!(axis_sizes@[i as int] > 0));
            return false;
        }
        i = i + 1;
    }
    true
}

/// Whether the number of positions of a grid fits in 64 bits.
pub fn volume_fits(axis_sizes: &Vec<u64>) -> (r: bool)
    ensures
        r == (volume(axis_sizes@) <= u64::MAX),
{
    proof {
        lemma_volume_positive(axis_sizes@);
    }
    if !has_no_empty_axis(axis_sizes) {
        return true;
    }
    let n: usize = axis_sizes.len();
    let mut acc: u64 = 1;
    let mut j: usize = n;
    assert(axis_sizes@.skip(n as int) =~= Seq::<u64>::empty());
    while j > 0
        invariant
            j <= n,
            n == axis_sizes@.len(),
            no_empty_axis(axis_sizes@),
            acc == volume(axis_sizes@.skip(j as int)),
        decreases j,
    {
        j = j - 1;
        assert(axis_sizes@.skip(j as int).drop_first() =~= axis_sizes@.skip(j + 1));
        match axis_sizes[j].checked_mul(acc) {
            Some(p) => {
                acc = p;
            },
            None => {
                proof {
                    lemma_volume_split(axis_sizes@, j as int);
                    let front = axis_sizes@.take(j as int);
                    lemma_volume_positive(front);
                    assert(no_empty_axis(front)) by {
                        assert forall|k: int| 0 <= k < front.len() implies #[trigger] front[k]
                            > 0 by {
                            assert(axis_sizes@[k] > 0);
                        }
                    }
                    let v = volume(axis_sizes@.skip(j as int));
                    assert(volume(front) * v >= v) by (nonlinear_arith)
                        requires
                            volume(front) >= 1,
                    ;
                }
                return false;
            },
        }
    }
    assert(axis_sizes@.skip(0) =~= axis_sizes@);
    true
}

/// The number of positions of a grid, or `u64::MAX` where there are more.
pub fn saturating_volume(axis_sizes: &Vec<u64>) -> (r: u64)
    ensures
        r == if volume(axis_sizes@) <= u64::MAX {
            volume(axis_sizes@) as u64
        } else {
            u64::MAX
        },
{
    let n: usize = axis_sizes.len();
    let mut acc: u64 = 1;
    let mut j: usize = n;
    assert(axis_sizes@.skip(n as int) =~= Seq::<u64>::empty());
    while j > 0
        invariant
            j <= n,
            n == axis_sizes@.len(),
            acc == (if volume(axis_sizes@.skip(j as int)) <= u64::MAX {
                volume(axis_sizes@.skip(j as int)) as u64
            } else {
                u64::MAX
            }),
        decreases j,
    {
        j = j - 1;
        assert(axis_sizes@.skip(j as int).drop_first() =~= axis_sizes@.skip(j + 1));
        let ghost v = volume(axis_sizes@.skip(j + 1));
        let size: u64 = axis_sizes[j];
        proof {
            if v > u64::MAX && size > 0 {
                assert(size as nat * v > u64::MAX) by (nonlinear_arith)
                    requires
                        v > u64::MAX,
                        size >= 1,
                ;
                assert(size as nat * (u64::MAX as nat) >= u64::MAX) by (nonlinear_arith)
                    requires
                        size >= 1,
                ;
            }
        }
        match size.checked_mul(acc) {
            Some(p) => {
                proof {
                    if v > u64::MAX {
                        if size == 0 {
                            assert(0 * v == 0);
                        } else {
                            assert(size as nat * (u64::MAX as nat) == p);
                        }
                    }
                }
                acc = p;
            },
            None => {
                acc = u64::MAX;
            },
        }
    }
    assert(axis_sizes@.skip(0) =~= axis_sizes@);
    acc
}

// ---------------------------------------------------------------------
// Grouping
// ---------------------------------------------------------------------

/// The elements of `s` whose key is `value`, in their order.
pub open spec fn group<A>(s: Seq<A>, key: spec_fn(A) -> int, value: int) -> Seq<A> {
    s.filter(|a: A| key(a) == value)
}

/// The first `k` groups of `s`, one after the other: group `i` holds the
/// elements whose key is `order(i)`.
pub open spec fn grouped<A>(
    s: Seq<A>,
    key: spec_fn(A) -> int,
    order: spec_fn(int) -> int,
    k: nat,
) -> Seq<A>
    decreases k,
{
    if k == 0 {
        Seq::empty()
    } else {
        grouped(s, key, order, (k - 1) as nat) + group(s, key, order(k - 1))
    }
}

proof fn lemma_group_count<A>(s: Seq<A>, key: spec_fn(A) -> int, value: int, x: A)
    ensures
        group(s, key, value).to_multiset().count(x) == if key(x) == value {
            s.to_multiset().count(x)
        } else {
            0
        },
    decreases s.len(),
{
    broadcast use vstd::seq_lib::group_to_multiset_ensures;

    reveal(Seq::filter);
    let p = |a: A| key(a) == value;
    if s.len() > 0 {
        let t = s.drop_last();
        lemma_group_count(t, key, value, x);
        assert(s =~= t.push(s.last()));
        vstd::seq_lib::to_multiset_build(t, s.last());
        if p(s.last()) {
            assert(s.filter(p) == t.filter(p).push(s.last()));
            vstd::seq_lib::to_multiset_build(t.filter(p), s.last());
        }
    }
}

proof fn lemma_grouped_count<A>(
    s: Seq<A>,
    key: spec_fn(A) -> int,
    order: spec_fn(int) -> int,
    k: nat,
    x: A,
    rank: int,
)
    requires
        order(rank) == key(x),
        0 <= rank,
        forall|i: int| 0 <= i < k && i != rank ==> #[trigger] order(i) != key(x),
    ensures
        grouped(s, key, order, k).to_multiset().count(x) == if rank < k {
            s.to_multiset().count(x)
        } else {
            0
        },
    decreases k,
{
    broadcast use vstd::seq_lib::group_to_multiset_ensures;

    if k > 0 {
        let j = (k - 1) as nat;
        lemma_grouped_count(s, key, order, j, x, rank);
        lemma_group_count(s, key, order(k - 1), x);
        vstd::seq_lib::lemma_multiset_commutative(
            grouped(s, key, order, j),
            group(s, key, order(k - 1)),
        );
    }
}

proof fn lemma_grouped_absent<A>(
    s: Seq<A>,
    key: spec_fn(A) -> int,
    order: spec_fn(int) -> int,
    k: nat,
    x: A,
)
    requires
        s.to_multiset().count(x) == 0,
    ensures
        grouped(s, key, order, k).to_multiset().count(x) == 0,
    decreases k,
{
    broadcast use vstd::seq_lib::group_to_multiset_ensures;

    if k > 0 {
        let j = (k - 1) as nat;
        lemma_grouped_absent(s, key, order, j, x);
        lemma_group_count(s, key, order(k - 1), x);
        vstd::seq_lib::lemma_multiset_commutative(
            grouped(s, key, order, j),
            group(s, key, order(k - 1)),
        );
    }
}

/// Grouping by distinct keys that cover every element only rearranges.
/// `rank` is the group of an element.
pub proof fn lemma_grouped_permutes<A>(
    s: Seq<A>,
    key: spec_fn(A) -> int,
    order: spec_fn(int) -> int,
    k: nat,
    rank: spec_fn(A) -> int,
)
    requires
        forall|i: int, j: int| 0 <= i < j < k ==> #[trigger] order(i) != #[trigger] order(j),
        forall|m: int|
            0 <= m < s.len() ==> 0 <= rank(#[trigger] s[m]) < k && order(rank(s[m])) == key(s[m]),
    ensures
        grouped(s, key, order, k).to_multiset() =~= s.to_multiset(),
{
    assert forall|x: A|
        grouped(s, key, order, k).to_multiset().count(x) == s.to_multiset().count(x) by {
        vstd::seq_lib::to_multiset_contains(s, x);
        if s.contains(x) {
            let m = choose|m: int| 0 <= m < s.len() && s[m] == x;
            let r = rank(s[m]);
            assert forall|i: int| 0 <= i < k && i != r implies #[trigger] order(i) != key(x) by {
                if i < r {
                    assert(order(i) != order(r));
                } else {
                    assert(order(r) != order(i));
                }
            }
            lemma_grouped_count(s, key, order, k, x, r);
        } else {
            lemma_grouped_absent(s, key, order, k, x);
        }
    }
}

/// A group of a concatenation is the concatenation of the groups.
pub proof fn lemma_group_concat<A>(a: Seq<A>, b: Seq<A>, key: spec_fn(A) -> int, value: int)
    ensures
        group(a + b, key, value) == group(a, key, value) + group(b, key, value),
{
    Seq::filter_distributes_over_add(a, b, |x: A| key(x) == value);
}

/// A group is empty where no element has the key.
pub proof fn lemma_group_none<A>(s: Seq<A>, key: spec_fn(A) -> int, value: int)
    requires
        forall|i: int| 0 <= i < s.len() ==> key(#[trigger] s[i]) != value,
    ensures
        group(s, key, value) == Seq::<A>::empty(),
    decreases s.len(),
{
    reveal(Seq::filter);
    let p = |a: A| key(a) == value;
    if s.len() > 0 {
        let t = s.drop_last();
        assert(key(s[s.len() - 1]) != value);
        assert forall|i: int| 0 <= i < t.len() implies key(#[trigger] t[i]) != value by {
            assert(t[i] == s[i]);
        }
        lemma_group_none(t, key, value);
        assert(!p(s.last()));
    }
}

/// The group of a single element is that element or nothing.
pub proof fn lemma_group_one<A>(x: A, key: spec_fn(A) -> int, value: int)
    ensures
        group(seq![x], key, value) == if key(x) == value {
            seq![x]
        } else {
            Seq::<A>::empty()
        },
{
    reveal(Seq::filter);
    let s = seq![x];
    let e = s.drop_last();
    assert(e =~= Seq::<A>::empty());
    assert(group(e, key, value) =~= Seq::<A>::empty());
    assert(s.last() == x);
    assert(group(s, key, value) == if key(s.last()) == value {
        group(e, key, value).push(s.last())
    } else {
        group(e, key, value)
    });
    assert(Seq::<A>::empty().push(x) =~= seq![x]);
}

/// Along the groups the keys follow `order`: of two elements the one that
/// comes first has the key of the same or an earlier group.
pub proof fn lemma_grouped_ordered<A>(
    s: Seq<A>,
    key: spec_fn(A) -> int,
    order: spec_fn(int) -> int,
    k: nat,
    up: bool,
)
    requires
        forall|i: int, j: int|
            0 <= i <= j < k ==> (if up {
                #[trigger] order(i) <= #[trigger] order(j)
            } else {
                order(i) >= order(j)
            }),
    ensures
        forall|m: int, n: int|
            0 <= m <= n < grouped(s, key, order, k).len() ==> (if up {
                key(#[trigger] grouped(s, key, order, k)[m]) <= key(
                    #[trigger] grouped(s, key, order, k)[n],
                )
            } else {
                key(grouped(s, key, order, k)[m]) >= key(grouped(s, key, order, k)[n])
            }),
        k > 0 ==> forall|m: int|
            0 <= m < grouped(s, key, order, k).len() ==> (if up {
                key(#[trigger] grouped(s, key, order, k)[m]) <= order(k - 1)
            } else {
                key(grouped(s, key, order, k)[m]) >= order(k - 1)
            }),
    decreases k,
{
    if k > 0 {
        let j = (k - 1) as nat;
        lemma_grouped_ordered(s, key, order, j, up);
        let g = group(s, key, order(k - 1));
        let p = |a: A| key(a) == order(k - 1);
        assert forall|m: int| 0 <= m < g.len() implies key(#[trigger] g[m]) == order(k - 1) by {
            s.lemma_filter_pred(p, m);
        }
        let f = grouped(s, key, order, j);
        let all = grouped(s, key, order, k);
        assert(all == f + g);
        assert forall|m: int| 0 <= m < all.len() implies (if up {
            key(#[trigger] all[m]) <= order(k - 1)
        } else {
            key(all[m]) >= order(k - 1)
        }) by {
            if m < f.len() {
                assert(all[m] == f[m]);
                assert(j > 0);
                assert(if up {
                    order(j - 1) <= order(k - 1)
                } else {
                    order(j - 1) >= order(k - 1)
                });
            } else {
                assert(all[m] == g[m - f.len()]);
            }
        }
        assert forall|m: int, n: int| 0 <= m <= n < all.len() implies (if up {
            key(#[trigger] all[m]) <= key(#[trigger] all[n])
        } else {
            key(all[m]) >= key(all[n])
        }) by {
            if n < f.len() {
                assert(all[m] == f[m] && all[n] == f[n]);
            } else {
                assert(all[n] == g[n - f.len()]);
            }
        }
    }
}

/// Whether one multi-index stands before another in lexicographic order:
/// it is smaller at the first axis where they differ.
pub open spec fn earlier(a: Seq<u64>, b: Seq<u64>) -> bool
    decreases a.len(),
{
    if a.len() == 0 || b.len() == 0 {
        false
    } else {
        a[0] < b[0] || a[0] == b[0] && earlier(a.drop_first(), b.drop_first())
    }
}

/// Whether a run of multi-indices is in lexicographic order.
pub open spec fn in_order(s: Seq<Seq<u64>>) -> bool {
    forall|i: int, j: int| 0 <= i < j < s.len() ==> earlier(#[trigger] s[i], #[trigger] s[j])
}

/// The smaller place is the earlier position.
proof fn lemma_place_order(a: Seq<u64>, b: Seq<u64>, sizes: Seq<u64>)
    requires
        inside(a, sizes),
        inside(b, sizes),
        place(a, sizes) < place(b, sizes),
    ensures
        earlier(a, b),
    decreases sizes.len(),
{
    if sizes.len() > 0 {
        let rest = sizes.drop_first();
        let (x, y) = (a.drop_first(), b.drop_first());
        assert forall|k: int| 0 <= k < rest.len() implies #[trigger] x[k] < rest[k] by {
            assert(a[k + 1] < sizes[k + 1]);
        }
        assert forall|k: int| 0 <= k < rest.len() implies #[trigger] y[k] < rest[k] by {
            assert(b[k + 1] < sizes[k + 1]);
        }
        law_digits_of_place(x, rest);
        law_digits_of_place(y, rest);
        let w = volume(rest) as int;
        let (m, n) = (a[0] as int, b[0] as int);
        let (p, q) = (place(x, rest) as int, place(y, rest) as int);
        if m > n {
            assert(m * w + p >= n * w + q) by (nonlinear_arith)
                requires
                    m > n,
                    w > q,
                    p >= 0,
                    q >= 0,
            ;
        } else if m == n {
            lemma_place_order(x, y, rest);
        }
    }
}

/// The positions of a grid are in lexicographic order.
pub proof fn law_positions_in_order(sizes: Seq<u64>)
    ensures
        in_order(positions(sizes)),
{
    let all = positions(sizes);
    assert forall|i: int, j: int| 0 <= i < j < all.len() implies earlier(
        #[trigger] all[i],
        #[trigger] all[j],
    ) by {
        law_place_of_digits(i as nat, sizes);
        law_place_of_digits(j as nat, sizes);
        lemma_place_order(all[i], all[j], sizes);
    }
}

/// What is kept of a run in order is in order.
proof fn lemma_filter_in_order(s: Seq<Seq<u64>>, p: spec_fn(Seq<u64>) -> bool)
    requires
        in_order(s),
    ensures
        in_order(s.filter(p)),
    decreases s.len(),
{
    reveal(Seq::filter);
    if s.len() > 0 {
        let front = s.drop_last();
        assert forall|i: int, j: int| 0 <= i < j < front.len() implies earlier(
            #[trigger] front[i],
            #[trigger] front[j],
        ) by {
            assert(earlier(s[i], s[j]));
        }
        lemma_filter_in_order(front, p);
        let f = front.filter(p);
        let all = s.filter(p);
        assert forall|m: int, n: int| 0 <= m < n < all.len() implies earlier(
            #[trigger] all[m],
            #[trigger] all[n],
        ) by {
            if n < f.len() {
                assert(earlier(f[m], f[n]));
            } else {
                front.lemma_filter_contains_rev(p, f[m]);
                let i = choose|i: int| 0 <= i < front.len() && front[i] == f[m];
                assert(earlier(s[i], s[s.len() - 1]));
            }
        }
    }
}

/// In groups of a run in order, what has one key is in order, where no two
/// groups have one key.
pub proof fn lemma_grouped_in_order(
    s: Seq<Seq<u64>>,
    key: spec_fn(Seq<u64>) -> int,
    order: spec_fn(int) -> int,
    k: nat,
    up: bool,
    m: int,
    n: int,
)
    requires
        in_order(s),
        forall|i: int, j: int|
            0 <= i < j < k ==> (if up {
                #[trigger] order(i) < #[trigger] order(j)
            } else {
                order(i) > order(j)
            }),
        0 <= m < n < grouped(s, key, order, k).len(),
        key(grouped(s, key, order, k)[m]) == key(grouped(s, key, order, k)[n]),
    ensures
        earlier(grouped(s, key, order, k)[m], grouped(s, key, order, k)[n]),
    decreases k,
{
    if k > 0 {
        let j = (k - 1) as nat;
        let f = grouped(s, key, order, j);
        let p = |a: Seq<u64>| key(a) == order(k - 1);
        let g = group(s, key, order(k - 1));
        let all = grouped(s, key, order, k);
        assert(all == f + g);
        lemma_filter_in_order(s, p);
        if n < f.len() {
            lemma_grouped_in_order(s, key, order, j, up, m, n);
        } else if m >= f.len() {
            assert(earlier(g[m - f.len()], g[n - f.len()]));
        } else {
            lemma_grouped_ordered(s, key, order, j, up);
            s.lemma_filter_pred(p, n - f.len());
            assert(key(all[n]) == order(k - 1));
            if j > 0 {
                assert(if up {
                    order(j - 1) < order(k - 1)
                } else {
                    order(j - 1) > order(k - 1)
                });
            }
        }
    }
}

} // verus!
