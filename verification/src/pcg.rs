//! PCG-RXS-M-XS: a 64-bit linear congruential walk with a permuted output
//! and a seek that costs a number of steps logarithmic in the distance.
//!
//! The walk has full period for every odd increment: from any state every
//! other state is reached, and after `2^64` steps the walk is back where it
//! began. Rejection sampling over the walk terminates because of that.
use vstd::arithmetic::div_mod::*;
use vstd::arithmetic::power2::*;
use vstd::prelude::*;

verus! {

/// Multiplier of the congruential step.
pub const MULTIPLIER: u64 = 6364136223846793005;

/// Multiplier of the output permutation.
pub const OUTPUT_MULTIPLIER: u64 = 12605985483714917081;

/// The number of 64-bit states.
pub open spec fn span() -> int {
    0x1_0000_0000_0000_0000
}

/// The state `n` steps after `x`.
pub open spec fn walk(x: int, inc: int, n: nat) -> int
    decreases n,
{
    if n == 0 {
        x % span()
    } else {
        (walk(x, inc, (n - 1) as nat) * MULTIPLIER + inc) % span()
    }
}

/// The RXS-M-XS output permutation of one state.
pub open spec fn permuted(state: u64) -> u64 {
    let word = (((state >> ((state >> 59u64) + 5) as u64) ^ state) as u64).wrapping_mul(
        OUTPUT_MULTIPLIER,
    );
    (word >> 43u64) ^ word
}

/// The output at `position` of the stream `(seed, inc)`.
pub open spec fn output_at(seed: u64, inc: u64, position: nat) -> u64 {
    permuted(walk(seed as int, inc as int, position) as u64)
}

/// Whether `x -> mult * x + plus` takes every state `n` steps ahead.
pub open spec fn jumps(inc: int, n: nat, mult: int, plus: int) -> bool {
    forall|x: int| #[trigger] walk(x, inc, n) == (mult * x + plus) % span()
}

proof fn lemma_walk_range(x: int, inc: int, n: nat)
    ensures
        0 <= walk(x, inc, n) < span(),
{
}

/// Walking `a` steps and then `b` steps is walking `a + b` steps.
pub proof fn lemma_walk_adds(x: int, inc: int, a: nat, b: nat)
    ensures
        walk(walk(x, inc, a), inc, b) == walk(x, inc, a + b),
    decreases b,
{
    lemma_walk_range(x, inc, a);
    if b == 0 {
        lemma_small_mod(walk(x, inc, a) as nat, span() as nat);
    } else {
        lemma_walk_adds(x, inc, a, (b - 1) as nat);
        assert((a + b - 1) as nat == a + (b - 1) as nat);
    }
}

proof fn lemma_jump_zero(inc: int)
    ensures
        jumps(inc, 0, 1, 0),
{
}

proof fn lemma_jump_one(inc: int)
    ensures
        jumps(inc, 1, MULTIPLIER as int, inc),
{
    assert forall|x: int| #[trigger] walk(x, inc, 1) == (MULTIPLIER * x + inc) % span() by {
        assert(walk(x, inc, 0) == x % span());
        lemma_mul_mod_noop_left(x, MULTIPLIER as int, span());
        lemma_add_mod_noop((x % span()) * MULTIPLIER, inc, span());
        lemma_add_mod_noop(x * MULTIPLIER, inc, span());
        assert(x * MULTIPLIER == MULTIPLIER * x);
    }
}

/// `(m * (x % s) + p) % s == (m * x + p) % s`.
proof fn lemma_affine_mod(m: int, x: int, p: int, s: int)
    requires
        s > 0,
    ensures
        (m * (x % s) + p) % s == (m * x + p) % s,
{
    lemma_mul_mod_noop_right(m, x, s);
    lemma_add_mod_noop(m * (x % s), p, s);
    lemma_add_mod_noop(m * x, p, s);
}

/// A jump followed by a jump is a jump over both distances.
proof fn lemma_jump_compose(inc: int, a: nat, m1: int, p1: int, b: nat, m2: int, p2: int)
    requires
        jumps(inc, a, m1, p1),
        jumps(inc, b, m2, p2),
    ensures
        jumps(inc, a + b, m1 * m2, p1 * m2 + p2),
{
    assert forall|x: int| #[trigger]
        walk(x, inc, a + b) == ((m1 * m2) * x + (p1 * m2 + p2)) % span() by {
        lemma_walk_adds(x, inc, a, b);
        let y = walk(x, inc, a);
        assert(y == (m1 * x + p1) % span());
        assert(walk(y, inc, b) == (m2 * y + p2) % span());
        lemma_affine_mod(m2, m1 * x + p1, p2, span());
        assert(m2 * (m1 * x + p1) + p2 == (m1 * m2) * x + (p1 * m2 + p2)) by (nonlinear_arith);
    }
}

/// Only the residues of a jump's coefficients matter.
proof fn lemma_jump_reduce(inc: int, n: nat, m: int, p: int)
    requires
        jumps(inc, n, m, p),
    ensures
        jumps(inc, n, m % span(), p % span()),
{
    assert forall|x: int| #[trigger]
        walk(x, inc, n) == ((m % span()) * x + (p % span())) % span() by {
        lemma_mul_mod_noop_left(m, x, span());
        lemma_add_mod_noop((m % span()) * x, p % span(), span());
        lemma_mod_twice(p, span());
        lemma_add_mod_noop(m * x, p, span());
    }
}

/// Output of PCG-RXS-M-XS at `position`: the state `position` steps after
/// `seed`, permuted.
pub fn pcg_seek(seed: u64, inc: u64, position: u64) -> (r: u64)
    ensures
        r == output_at(seed, inc, position as nat),
{
    let mut acc_mult: u64 = 1;
    let mut acc_plus: u64 = 0;
    let mut cur_mult: u64 = MULTIPLIER;
    let mut cur_plus: u64 = inc;
    let mut delta: u64 = position;
    let ghost mut done: nat = 0;
    let ghost mut stride: nat = 1;
    proof {
        lemma_jump_zero(inc as int);
        lemma_jump_one(inc as int);
        assert(position as nat == done + stride * (delta as nat));
    }
    while delta > 0
        invariant
            jumps(inc as int, done, acc_mult as int, acc_plus as int),
            jumps(inc as int, stride, cur_mult as int, cur_plus as int),
            position as nat == done + stride * (delta as nat),
        decreases delta,
    {
        let ghost before = delta;
        if delta % 2 == 1 {
            proof {
                lemma_jump_compose(
                    inc as int,
                    done,
                    acc_mult as int,
                    acc_plus as int,
                    stride,
                    cur_mult as int,
                    cur_plus as int,
                );
                lemma_jump_reduce(
                    inc as int,
                    done + stride,
                    acc_mult as int * cur_mult as int,
                    acc_plus as int * cur_mult as int + cur_plus as int,
                );
                lemma_add_mod_noop(
                    acc_plus as int * cur_mult as int,
                    cur_plus as int,
                    span(),
                );
                lemma_small_mod(cur_plus as nat, span() as nat);
                done = done + stride;
            }
            acc_mult = acc_mult.wrapping_mul(cur_mult);
            acc_plus = acc_plus.wrapping_mul(cur_mult).wrapping_add(cur_plus);
            assert(jumps(inc as int, done, acc_mult as int, acc_plus as int));
        }
        proof {
            lemma_jump_compose(
                inc as int,
                stride,
                cur_mult as int,
                cur_plus as int,
                stride,
                cur_mult as int,
                cur_plus as int,
            );
            lemma_jump_reduce(
                inc as int,
                stride + stride,
                cur_mult as int * cur_mult as int,
                cur_plus as int * cur_mult as int + cur_plus as int,
            );
            assert(cur_plus as int * cur_mult as int + cur_plus as int == (cur_mult as int + 1)
                * cur_plus as int) by (nonlinear_arith);
            lemma_mul_mod_noop_left(cur_mult as int + 1, cur_plus as int, span());
            assert((stride + stride) * ((before / 2) as nat) + stride * ((before % 2) as nat)
                == stride * (before as nat)) by (nonlinear_arith)
                requires
                    before as nat == 2 * ((before / 2) as nat) + (before % 2) as nat,
            ;
            let bit = (before % 2) as nat;
            assert(stride * bit == (if bit == 1 { stride } else { 0 })) by (nonlinear_arith)
                requires
                    bit == 0 || bit == 1,
            ;
            stride = stride + stride;
        }
        cur_plus = cur_mult.wrapping_add(1).wrapping_mul(cur_plus);
        cur_mult = cur_mult.wrapping_mul(cur_mult);
        delta = delta / 2;
    }
    let state: u64 = acc_mult.wrapping_mul(seed).wrapping_add(acc_plus);
    assert(state == walk(seed as int, inc as int, position as nat)) by {
        assert(stride * (delta as nat) == 0) by (nonlinear_arith)
            requires
                delta == 0,
        ;
        assert(walk(seed as int, inc as int, done) == (acc_mult as int * seed as int
            + acc_plus as int) % span());
        lemma_add_mod_noop(acc_mult as int * seed as int, acc_plus as int, span());
        lemma_small_mod(acc_plus as nat, span() as nat);
    }
    permute(state)
}

/// The output of one state.
fn permute(state: u64) -> (r: u64)
    ensures
        r == permuted(state),
{
    assert((state >> 59u64) < 32) by (bit_vector);
    let shift: u64 = (state >> 59u64) + 5;
    let word: u64 = ((state >> shift) ^ state).wrapping_mul(OUTPUT_MULTIPLIER);
    (word >> 43u64) ^ word
}

// ---------------------------------------------------------------------
// Full period
// ---------------------------------------------------------------------

/// `a` in `1 + 2^(k+2) * a`, the multiplier of `2^k` steps.
spec fn mult_part(k: nat) -> int
    decreases k,
{
    if k == 0 {
        (MULTIPLIER as int - 1) / 4
    } else {
        let a = mult_part((k - 1) as nat);
        a + pow2(k) * a * a
    }
}

/// `c` in `2^k * (2 c + 1)`, the increment of `2^k` steps.
spec fn plus_part(inc: int, k: nat) -> int
    decreases k,
{
    if k == 0 {
        (inc - 1) / 2
    } else {
        let a = mult_part((k - 1) as nat);
        let c = plus_part(inc, (k - 1) as nat);
        c + pow2((k - 1) as nat) * a * (2 * c + 1)
    }
}

/// `2^k` steps multiply by `1 + 2^(k+2) a` and add `2^k (2 c + 1)`.
proof fn lemma_power_jump(inc: int, k: nat)
    requires
        inc % 2 == 1,
    ensures
        jumps(
            inc,
            pow2(k),
            1 + 4 * pow2(k) * mult_part(k),
            pow2(k) * (2 * plus_part(inc, k) + 1),
        ),
    decreases k,
{
    if k == 0 {
        lemma2_to64();
        lemma_jump_one(inc);
        let one = pow2(0) as int;
        let a = mult_part(0);
        let b = 2 * plus_part(inc, 0) + 1;
        assert(1 + 4 * a == MULTIPLIER as int);
        assert(4 * one * a == 4 * a && one * b == b) by (nonlinear_arith)
            requires
                one == 1,
        ;
    } else {
        let j = (k - 1) as nat;
        lemma_power_jump(inc, j);
        lemma_pow2_unfold(k);
        let q = pow2(j) as int;
        let a = mult_part(j);
        let c = plus_part(inc, j);
        assert(pow2(k) == 2 * q);
        let m = 1 + 4 * q * a;
        let p = q * (2 * c + 1);
        lemma_jump_compose(inc, pow2(j), m, p, pow2(j), m, p);
        assert(pow2(j) + pow2(j) == pow2(k));
        assert(mult_part(k) == a + (2 * q) * a * a);
        assert(plus_part(inc, k) == c + q * a * (2 * c + 1));
        assert(m * m == 1 + 4 * (2 * q) * (a + (2 * q) * a * a)) by (nonlinear_arith)
            requires
                m == 1 + 4 * q * a,
        ;
        assert(p * m + p == (2 * q) * (2 * (c + q * a * (2 * c + 1)) + 1)) by (nonlinear_arith)
            requires
                m == 1 + 4 * q * a,
                p == q * (2 * c + 1),
        ;
    }
}

/// The walk repeats after `2^64` steps.
pub proof fn lemma_walk_period(x: int, inc: int, n: nat)
    requires
        inc % 2 == 1,
    ensures
        walk(x, inc, (n + 0x1_0000_0000_0000_0000) as nat) == walk(x, inc, n),
{
    lemma2_to64_rest();
    lemma_power_jump(inc, 64);
    let y = walk(x, inc, n);
    lemma_walk_range(x, inc, n);
    lemma_walk_adds(x, inc, n, pow2(64));
    let a = mult_part(64);
    let b = 2 * plus_part(inc, 64) + 1;
    let s = span();
    assert(walk(y, inc, pow2(64)) == ((1 + 4 * s * a) * y + s * b) % s);
    assert((1 + 4 * s * a) * y + s * b == s * (4 * a * y + b) + y) by (nonlinear_arith);
    lemma_mod_multiples_vanish(4 * a * y + b, y, s);
    lemma_small_mod(y as nat, s as nat);
}

/// From any state some `n < 2^k` steps lead to a state that agrees with
/// `target` in its low `k` bits.
proof fn lemma_reaches_low_bits(x: int, inc: int, target: int, k: nat) -> (n: nat)
    requires
        inc % 2 == 1,
        k <= 64,
    ensures
        n < pow2(k),
        (walk(x, inc, n) - target) % (pow2(k) as int) == 0,
    decreases k,
{
    if k == 0 {
        lemma2_to64();
        0
    } else {
        let j = (k - 1) as nat;
        let n = lemma_reaches_low_bits(x, inc, target, j);
        let y = walk(x, inc, n);
        let q = pow2(j) as int;
        lemma_pow2_pos(j);
        lemma_pow2_unfold(k);
        let e = (y - target) / q;
        lemma_fundamental_div_mod(y - target, q);
        assert(y - target == q * e);
        if e % 2 == 0 {
            let h = e / 2;
            assert(y - target == (2 * q) * h) by (nonlinear_arith)
                requires
                    y - target == q * e,
                    e == 2 * h,
            ;
            lemma_mod_multiples_vanish(h, 0, 2 * q);
            n
        } else {
            lemma_power_jump(inc, j);
            lemma_walk_adds(x, inc, n, pow2(j));
            let a = mult_part(j);
            let c = plus_part(inc, j);
            let full = (1 + 4 * q * a) * y + q * (2 * c + 1);
            let z = walk(y, inc, pow2(j));
            assert(z == full % span());
            // The remaining high part of the span is a multiple of 2q.
            lemma2_to64_rest();
            lemma_pow2_adds(k, (64 - k) as nat);
            let r = pow2((64 - k) as nat) as int;
            assert(span() == (2 * q) * r);
            lemma_fundamental_div_mod(full, span());
            let t = full / span();
            assert(z == full - span() * t);
            let h = (e + 1) / 2;
            assert(e + 1 == 2 * h);
            let g = 2 * a * y + c + h - r * t;
            assert(z - target == (2 * q) * g) by (nonlinear_arith)
                requires
                    z == full - span() * t,
                    span() == (2 * q) * r,
                    full == (1 + 4 * q * a) * y + q * (2 * c + 1),
                    y - target == q * e,
                    e + 1 == 2 * h,
                    g == 2 * a * y + c + h - r * t,
            ;
            lemma_mod_multiples_vanish(g, 0, 2 * q);
            (n + pow2(j)) as nat
        }
    }
}

/// Full period: from any state every 64-bit state is reached in fewer than
/// `2^64` steps.
pub proof fn lemma_walk_reaches(x: int, inc: int, target: u64) -> (n: nat)
    requires
        inc % 2 == 1,
    ensures
        n < 0x1_0000_0000_0000_0000,
        walk(x, inc, n) == target,
{
    lemma2_to64_rest();
    let n = lemma_reaches_low_bits(x, inc, target as int, 64);
    let y = walk(x, inc, n);
    lemma_walk_range(x, inc, n);
    let s = span();
    lemma_fundamental_div_mod(y - target, s);
    let e = (y - target) / s;
    assert(y - target == s * e);
    assert(e == 0) by (nonlinear_arith)
        requires
            y - target == s * e,
            -s < y - target < s,
            s > 0,
    ;
    n
}

/// State `1` permutes to an output with its top bit set.
pub proof fn lemma_high_output()
    ensures
        permuted(1) >= 0x8000_0000_0000_0000,
{
    assert((1u64 >> 59u64) == 0) by (bit_vector);
    assert(((1u64 >> 5u64) ^ 1u64) == 1u64) by (bit_vector);
    let word: u64 = 12605985483714917081;
    assert(1u64.wrapping_mul(OUTPUT_MULTIPLIER) == word);
    assert(((word >> 43u64) ^ word) >= 0x8000_0000_0000_0000u64) by (bit_vector)
        requires
            word == 12605985483714917081u64,
    ;
}

} // verus!
