//! Double-precision numbers by their bit patterns.
//!
//! A double is carried as the 64 bits of its IEEE 754 encoding. Order,
//! finiteness, the conversion of integers and the reading of decimal text
//! are integer computations on those bits. A finite double is an integer
//! multiple of the smallest positive one; that integer is what the
//! contracts speak of.
use crate::chars;
use vstd::arithmetic::mul::*;
use vstd::arithmetic::power::*;
use vstd::arithmetic::power2::*;
use vstd::prelude::*;

verus! {

/// The bits of positive infinity.
pub const INFINITY_BITS: u64 = 0x7ff0_0000_0000_0000;

/// The bits of the quiet not-a-number.
pub const NAN_BITS: u64 = 0x7ff8_0000_0000_0000;

/// The sign bit.
pub const SIGN_BIT: u64 = 0x8000_0000_0000_0000;

/// A double, by the bits of its IEEE 754 encoding.
#[derive(Clone, Copy, Debug, PartialEq, Eq, Structural)]
pub struct Float64 {
    pub bits: u64,
}

/// Which side of another value a value stands on.
#[derive(Clone, Copy, Debug, PartialEq, Eq, Structural)]
pub enum Side {
    Below,
    Same,
    Above,
}

/// The side on which `a` stands of `b`.
pub open spec fn side_of(a: int, b: int) -> Side {
    if a < b {
        Side::Below
    } else if a == b {
        Side::Same
    } else {
        Side::Above
    }
}

/// The bits without the sign.
pub open spec fn magnitude(bits: u64) -> int {
    if bits >= SIGN_BIT {
        bits - SIGN_BIT
    } else {
        bits as int
    }
}

/// A number that orders the doubles other than not-a-number as their
/// values are ordered; both zeros have the key zero.
pub open spec fn order_key(bits: u64) -> int {
    if bits >= SIGN_BIT {
        -magnitude(bits)
    } else {
        magnitude(bits)
    }
}

impl Float64 {
    /// The double with these bits.
    pub fn from_bits(bits: u64) -> (r: Float64)
        ensures
            r.bits == bits,
    {
        Float64 { bits }
    }

    /// Not-a-number: all exponent bits set, and a fraction.
    pub open spec fn nan(self) -> bool {
        magnitude(self.bits) > INFINITY_BITS
    }

    /// Neither infinite nor not-a-number.
    pub open spec fn finite(self) -> bool {
        magnitude(self.bits) < INFINITY_BITS
    }

    /// The double of the other sign.
    pub open spec fn negated(self) -> Float64 {
        Float64 {
            bits: if self.bits >= SIGN_BIT {
                (self.bits - SIGN_BIT) as u64
            } else {
                (self.bits + SIGN_BIT) as u64
            },
        }
    }

    /// The double of the other sign.
    pub fn negate(self) -> (r: Float64)
        ensures
            r == self.negated(),
    {
        if self.bits >= SIGN_BIT {
            Float64 { bits: self.bits - SIGN_BIT }
        } else {
            Float64 { bits: self.bits + SIGN_BIT }
        }
    }

    /// Whether this is not-a-number.
    pub fn is_nan(self) -> (r: bool)
        ensures
            r == self.nan(),
    {
        self.unsigned() > INFINITY_BITS
    }

    /// Whether this is neither infinite nor not-a-number.
    pub fn is_finite(self) -> (r: bool)
        ensures
            r == self.finite(),
    {
        self.unsigned() < INFINITY_BITS
    }

    fn unsigned(self) -> (r: u64)
        ensures
            r == magnitude(self.bits),
    {
        if self.bits >= SIGN_BIT {
            self.bits - SIGN_BIT
        } else {
            self.bits
        }
    }

    /// How this double compares with `other`; not-a-number compares with
    /// nothing.
    pub open spec fn compared(self, other: Float64) -> Option<Side> {
        if self.nan() || other.nan() {
            None
        } else {
            Some(side_of(order_key(self.bits), order_key(other.bits)))
        }
    }

    /// How this double compares with `other`.
    pub fn compare(self, other: Float64) -> (r: Option<Side>)
        ensures
            r == self.compared(other),
    {
        if self.is_nan() || other.is_nan() {
            return None;
        }
        let a: i128 = if self.bits >= SIGN_BIT {
            -(self.unsigned() as i128)
        } else {
            self.unsigned() as i128
        };
        let b: i128 = if other.bits >= SIGN_BIT {
            -(other.unsigned() as i128)
        } else {
            other.unsigned() as i128
        };
        if a < b {
            Some(Side::Below)
        } else if a == b {
            Some(Side::Same)
        } else {
            Some(Side::Above)
        }
    }

    /// Whether the value is zero, of either sign.
    pub open spec fn zero(self) -> bool {
        magnitude(self.bits) == 0
    }

    /// Whether the value is zero, of either sign.
    pub fn is_zero(self) -> (r: bool)
        ensures
            r == self.zero(),
    {
        self.unsigned() == 0
    }
}

// ---------------------------------------------------------------------
// Values in units of the smallest positive double
// ---------------------------------------------------------------------

/// The value of the positive bits `b`, in units of the smallest positive
/// double. The bits of infinity stand for the power of two that comes
/// after the largest finite double.
pub open spec fn units(b: u64) -> nat {
    let exponent = b / 0x10_0000_0000_0000;
    let fraction = b % 0x10_0000_0000_0000;
    if exponent == 0 {
        fraction as nat
    } else {
        (0x10_0000_0000_0000 + fraction) as nat * pow2((exponent - 1) as nat)
    }
}

/// The distance between two numbers.
pub open spec fn gap(a: int, b: int) -> int {
    if a <= b {
        b - a
    } else {
        a - b
    }
}

/// Whether `b` is the double nearest to `num / den` units, the one with
/// the even bits where two are equally near.
pub open spec fn nearest(b: u64, num: nat, den: nat) -> bool {
    &&& b <= INFINITY_BITS
    &&& forall|c: u64|
        c <= INFINITY_BITS && c != b ==> {
            ||| gap(units(b) * den as int, num as int) < gap(#[trigger] units(c) * den as int, num as int)
            ||| (gap(units(b) * den as int, num as int) == gap(units(c) * den as int, num as int) && b % 2
                == 0)
        }
}

/// The double nearest to `num / den` units.
pub open spec fn rounded(num: nat, den: nat) -> u64 {
    choose|b: u64| nearest(b, num, den)
}

/// One step up in the bits is a step up in the value.
proof fn lemma_units_step(b: u64)
    requires
        b < u64::MAX,
    ensures
        units(b) < units((b + 1) as u64),
{
    let q = 0x10_0000_0000_0000u64;
    let e = b / q;
    let f = b % q;
    let c = (b + 1) as u64;
    if f + 1 < q {
        assert(c / q == e && c % q == f + 1);
        if e > 0 {
            let p = pow2((e - 1) as nat);
            lemma_pow2_pos((e - 1) as nat);
            assert((q + f) * p < (q + f + 1) * p) by (nonlinear_arith)
                requires
                    p > 0,
            ;
        }
    } else {
        assert(c / q == e + 1 && c % q == 0);
        let p = pow2(e as nat);
        if e == 0 {
            lemma2_to64();
            assert(units(c) == q as nat * p);
            assert(q as nat * p == q) by (nonlinear_arith)
                requires
                    p == 1,
            ;
        } else {
            lemma_pow2_unfold(e as nat);
            let h = pow2((e - 1) as nat);
            lemma_pow2_pos((e - 1) as nat);
            assert((q + f) as nat * h < q as nat * p) by (nonlinear_arith)
                requires
                    p == 2 * h,
                    h > 0,
                    f < q,
            ;
        }
    }
}

/// Larger bits have a larger value.
pub proof fn lemma_units_grow(a: u64, b: u64)
    requires
        a < b,
    ensures
        units(a) < units(b),
    decreases b - a,
{
    lemma_units_step((b - 1) as u64);
    if a < b - 1 {
        lemma_units_grow(a, (b - 1) as u64);
    }
}

/// At most one double is nearest.
pub proof fn lemma_nearest_unique(a: u64, b: u64, num: nat, den: nat)
    requires
        nearest(a, num, den),
        nearest(b, num, den),
        den > 0,
    ensures
        a == b,
{
    if a != b {
        assert(gap(units(a) * den as int, num as int) == gap(units(b) * den as int, num as int));
        assert(a % 2 == 0 && b % 2 == 0);
        // The bits between two equally near doubles are nearer than both.
        let (lo, hi) = if a < b {
            (a, b)
        } else {
            (b, a)
        };
        let mid = (lo + 1) as u64;
        lemma_units_grow(lo, mid);
        lemma_units_grow(mid, hi);
        let (x, m, y, d) = (units(lo) as int, units(mid) as int, units(hi) as int, den as int);
        assert(x * d < m * d < y * d) by (nonlinear_arith)
            requires
                x < m < y,
                d > 0,
        ;
        assert(gap(units(mid) * den as int, num as int) < gap(units(lo) * den as int, num as int));
    }
}

/// `rounded` is the one nearest double.
proof fn lemma_rounded_is(b: u64, num: nat, den: nat)
    requires
        nearest(b, num, den),
        den > 0,
    ensures
        rounded(num, den) == b,
{
    lemma_nearest_unique(b, rounded(num, den), num, den);
}

/// The nearest double is one of the two that enclose the number.
proof fn lemma_nearest_of_two(b: u64, num: nat, den: nat)
    requires
        den > 0,
        b < INFINITY_BITS,
        units(b) * den <= num,
        num < units((b + 1) as u64) * den,
    ensures
        ({
            let low = num - units(b) * den;
            let high = units((b + 1) as u64) * den - num;
            if low < high || (low == high && b % 2 == 0) {
                nearest(b, num, den)
            } else {
                nearest((b + 1) as u64, num, den)
            }
        }),
{
    let up = (b + 1) as u64;
    let low = num - units(b) * den;
    let high = units(up) * den - num;
    assert forall|c: u64| c <= INFINITY_BITS && c < b implies gap(
        #[trigger] units(c) * den as int,
        num as int,
    ) > low by {
        lemma_units_grow(c, b);
        assert(units(c) * den < units(b) * den) by (nonlinear_arith)
            requires
                units(c) < units(b),
                den > 0,
        ;
    }
    assert forall|c: u64| c <= INFINITY_BITS && c > up implies gap(
        #[trigger] units(c) * den as int,
        num as int,
    ) > high by {
        lemma_units_grow(up, c);
        assert(units(up) * den < units(c) * den) by (nonlinear_arith)
            requires
                units(up) < units(c),
                den > 0,
        ;
    }
}

/// At or above the units of infinity the nearest is infinity.
proof fn lemma_nearest_infinity(num: nat, den: nat)
    requires
        den > 0,
        units(INFINITY_BITS) * den <= num,
    ensures
        nearest(INFINITY_BITS, num, den),
{
    assert forall|c: u64| c <= INFINITY_BITS && c != INFINITY_BITS implies gap(
        units(INFINITY_BITS) * den as int,
        num as int,
    ) < gap(#[trigger] units(c) * den as int, num as int) by {
        lemma_units_grow(c, INFINITY_BITS);
        assert(units(c) * den < units(INFINITY_BITS) * den) by (nonlinear_arith)
            requires
                units(c) < units(INFINITY_BITS),
                den > 0,
        ;
    }
}

/// A number below the units of `hi` is enclosed by two doubles.
proof fn lemma_enclosed(hi: u64, num: nat, den: nat) -> (b: u64)
    requires
        den > 0,
        num < units(hi) * den,
    ensures
        b < hi,
        units(b) * den <= num,
        num < units((b + 1) as u64) * den,
    decreases hi,
{
    assert(units(0) * den == 0) by (nonlinear_arith)
        requires
            units(0) == 0,
    ;
    assert(hi > 0);
    if units((hi - 1) as u64) * den <= num {
        (hi - 1) as u64
    } else {
        lemma_enclosed((hi - 1) as u64, num, den)
    }
}

/// Every number has a nearest double.
pub proof fn lemma_rounded_nearest(num: nat, den: nat)
    requires
        den > 0,
    ensures
        nearest(rounded(num, den), num, den),
{
    if units(INFINITY_BITS) * den <= num {
        lemma_nearest_infinity(num, den);
    } else {
        let b = lemma_enclosed(INFINITY_BITS, num, den);
        lemma_nearest_of_two(b, num, den);
    }
}

// ---------------------------------------------------------------------
// Natural numbers of any size
// ---------------------------------------------------------------------

/// The number written by base-`2^32` digits, least significant first.
pub open spec fn limbs_value(s: Seq<u32>) -> nat
    decreases s.len(),
{
    if s.len() == 0 {
        0
    } else {
        s[0] as nat + 0x1_0000_0000 * limbs_value(s.drop_first())
    }
}

proof fn lemma_limbs_push(s: Seq<u32>, d: u32)
    ensures
        limbs_value(s.push(d)) == limbs_value(s) + d as nat * pow2((32 * s.len()) as nat),
    decreases s.len(),
{
    lemma2_to64();
    if s.len() == 0 {
        assert(s.push(d).drop_first() =~= Seq::<u32>::empty());
        assert(limbs_value(s.push(d).drop_first()) == 0);
        assert(d as nat * pow2(0) == d) by (nonlinear_arith)
            requires
                pow2(0) == 1,
        ;
    } else {
        assert(s.push(d).drop_first() =~= s.drop_first().push(d));
        lemma_limbs_push(s.drop_first(), d);
        let k = (32 * (s.len() - 1)) as nat;
        lemma_pow2_adds(32, k);
        let p = pow2(k);
        assert(pow2((32 * s.len()) as nat) == 0x1_0000_0000 * p);
        assert(0x1_0000_0000 * (d as nat * p) == d as nat * (0x1_0000_0000 * p))
            by (nonlinear_arith);
    }
}

/// A natural number of any size.
pub struct Natural {
    limbs: Vec<u32>,
}

impl Natural {
    /// The number.
    pub closed spec fn value(self) -> nat {
        limbs_value(self.limbs@)
    }

    /// The number `n`.
    pub fn of(n: u64) -> (r: Natural)
        ensures
            r.value() == n,
    {
        let low: u32 = (n % 0x1_0000_0000) as u32;
        let high: u32 = (n / 0x1_0000_0000) as u32;
        let mut limbs: Vec<u32> = Vec::new();
        limbs.push(low);
        limbs.push(high);
        assert(limbs@.drop_first() =~= seq![high]);
        assert(limbs@.drop_first().drop_first() =~= Seq::<u32>::empty());
        assert(limbs_value(limbs@.drop_first().drop_first()) == 0);
        assert(limbs_value(limbs@.drop_first()) == high);
        Natural { limbs }
    }

    /// The same number.
    pub fn copy(&self) -> (r: Natural)
        ensures
            r.value() == self.value(),
    {
        let mut limbs: Vec<u32> = Vec::new();
        let mut i: usize = 0;
        while i < self.limbs.len()
            invariant
                i <= self.limbs.len(),
                limbs@ == self.limbs@.take(i as int),
            decreases self.limbs.len() - i,
        {
            limbs.push(self.limbs[i]);
            i = i + 1;
            assert(self.limbs@.take(i as int) =~= self.limbs@.take(i - 1).push(
                self.limbs@[i - 1],
            ));
        }
        assert(self.limbs@.take(i as int) =~= self.limbs@);
        Natural { limbs }
    }

    /// `self * m + a`.
    pub fn scaled(&self, m: u32, a: u32) -> (r: Natural)
        ensures
            r.value() == self.value() * m + a,
    {
        let mut limbs: Vec<u32> = Vec::new();
        let mut carry: u64 = a as u64;
        let mut i: usize = 0;
        proof {
            lemma2_to64();
            assert(self.limbs@.take(0) =~= Seq::<u32>::empty());
            let v = limbs_value(self.limbs@.take(0));
            assert(v * m + a == limbs_value(limbs@) + carry as nat * pow2(0)) by (nonlinear_arith)
                requires
                    v == 0,
                    limbs_value(limbs@) == 0,
                    carry == a,
                    pow2(0) == 1,
            ;
        }
        while i < self.limbs.len()
            invariant
                i <= self.limbs.len(),
                limbs@.len() == i,
                carry < 0x1_0000_0000,
                limbs_value(self.limbs@.take(i as int)) * m + a == limbs_value(limbs@)
                    + carry as nat * pow2((32 * i) as nat),
            decreases self.limbs.len() - i,
        {
            let d: u32 = self.limbs[i];
            assert(d as u64 * m as u64 <= 0xffff_ffff * 0xffff_ffff) by (nonlinear_arith)
                requires
                    d <= 0xffff_ffff,
                    m <= 0xffff_ffff,
            ;
            let t: u64 = (d as u64) * (m as u64) + carry;
            let low: u32 = (t % 0x1_0000_0000) as u32;
            let high: u64 = t / 0x1_0000_0000;
            proof {
                let p = pow2((32 * i) as nat);
                lemma2_to64();
                lemma_pow2_adds((32 * i) as nat, 32);
                assert(pow2((32 * (i + 1)) as nat) == p * 0x1_0000_0000);
                assert(self.limbs@.take(i + 1) =~= self.limbs@.take(i as int).push(d));
                lemma_limbs_push(self.limbs@.take(i as int), d);
                lemma_limbs_push(limbs@, low);
                let v = limbs_value(self.limbs@.take(i as int));
                let w = limbs_value(limbs@);
                assert((v + d as nat * p) * m + a == (w + low as nat * p) + high as nat * (p
                    * 0x1_0000_0000)) by (nonlinear_arith)
                    requires
                        v * m + a == w + carry as nat * p,
                        d as nat * m as nat + carry as nat == low as nat + high as nat
                            * 0x1_0000_0000,
                ;
            }
            limbs.push(low);
            carry = high;
            i = i + 1;
        }
        assert(self.limbs@.take(i as int) =~= self.limbs@);
        proof {
            lemma_limbs_push(limbs@, carry as u32);
        }
        limbs.push(carry as u32);
        Natural { limbs }
    }

    /// `self + other`.
    pub fn plus(&self, other: &Natural) -> (r: Natural)
        ensures
            r.value() == self.value() + other.value(),
    {
        let n: usize = if self.limbs.len() >= other.limbs.len() {
            self.limbs.len()
        } else {
            other.limbs.len()
        };
        let mut limbs: Vec<u32> = Vec::new();
        let mut carry: u64 = 0;
        let mut i: usize = 0;
        proof {
            lemma2_to64();
            assert(self.limbs@.take(0) =~= Seq::<u32>::empty());
            assert(other.limbs@.take(0) =~= Seq::<u32>::empty());
            assert(carry as nat * pow2(0) == 0) by (nonlinear_arith)
                requires
                    carry == 0,
            ;
        }
        while i < n
            invariant
                n == if self.limbs@.len() >= other.limbs@.len() {
                    self.limbs@.len()
                } else {
                    other.limbs@.len()
                },
                i <= n,
                limbs@.len() == i,
                carry <= 1,
                limbs_value(head(self.limbs@, i as int)) + limbs_value(
                    head(other.limbs@, i as int),
                ) == limbs_value(limbs@) + carry as nat * pow2((32 * i) as nat),
            decreases n - i,
        {
            let x: u32 = if i < self.limbs.len() {
                self.limbs[i]
            } else {
                0
            };
            let y: u32 = if i < other.limbs.len() {
                other.limbs[i]
            } else {
                0
            };
            let t: u64 = x as u64 + y as u64 + carry;
            let low: u32 = (t % 0x1_0000_0000) as u32;
            let high: u64 = t / 0x1_0000_0000;
            proof {
                let p = pow2((32 * i) as nat);
                lemma2_to64();
                lemma_pow2_adds((32 * i) as nat, 32);
                assert(pow2((32 * (i + 1)) as nat) == p * 0x1_0000_0000);
                lemma_head_step(self.limbs@, i as int, x);
                lemma_head_step(other.limbs@, i as int, y);
                lemma_limbs_push(limbs@, low);
                let v = limbs_value(head(self.limbs@, i as int));
                let u = limbs_value(head(other.limbs@, i as int));
                let w = limbs_value(limbs@);
                assert((v + x as nat * p) + (u + y as nat * p) == (w + low as nat * p)
                    + high as nat * (p * 0x1_0000_0000)) by (nonlinear_arith)
                    requires
                        v + u == w + carry as nat * p,
                        x as nat + y as nat + carry as nat == low as nat + high as nat
                            * 0x1_0000_0000,
                ;
            }
            limbs.push(low);
            carry = high;
            i = i + 1;
        }
        proof {
            assert(head(self.limbs@, n as int) =~= self.limbs@);
            assert(head(other.limbs@, n as int) =~= other.limbs@);
            lemma_limbs_push(limbs@, carry as u32);
        }
        limbs.push(carry as u32);
        Natural { limbs }
    }

    /// `self * m`.
    pub fn times(&self, m: u64) -> (r: Natural)
        ensures
            r.value() == self.value() * m,
    {
        let low: u32 = (m % 0x1_0000_0000) as u32;
        let high: u32 = (m / 0x1_0000_0000) as u32;
        let a: Natural = self.scaled(low, 0);
        let b: Natural = self.scaled(high, 0).scaled(0x1_0000, 0).scaled(0x1_0000, 0);
        assert(self.value() * low + ((self.value() * high) * 0x1_0000) * 0x1_0000 == self.value()
            * m) by (nonlinear_arith)
            requires
                m as int == high as int * 0x1_0000_0000 + low as int,
        ;
        a.plus(&b)
    }

    /// `self * 2^k`.
    pub fn doubled(&self, k: u64) -> (r: Natural)
        ensures
            r.value() == self.value() * pow2(k as nat),
    {
        let mut r: Natural = self.copy();
        let mut i: u64 = 0;
        proof {
            lemma2_to64();
            assert(self.value() * pow2(0) == self.value()) by (nonlinear_arith)
                requires
                    pow2(0) == 1,
            ;
        }
        while i < k
            invariant
                i <= k,
                r.value() == self.value() * pow2(i as nat),
            decreases k - i,
        {
            if k - i >= 31 {
                r = r.scaled(0x8000_0000, 0);
                proof {
                    lemma2_to64();
                    lemma_pow2_adds(i as nat, 31);
                    let (v, p) = (self.value(), pow2(i as nat));
                    assert((v * p) * 0x8000_0000 == v * (p * 0x8000_0000)) by (nonlinear_arith);
                }
                i = i + 31;
            } else {
                r = r.scaled(2, 0);
                proof {
                    lemma_pow2_unfold((i + 1) as nat);
                    let (v, p) = (self.value(), pow2(i as nat));
                    assert((v * p) * 2 == v * (2 * p)) by (nonlinear_arith);
                }
                i = i + 1;
            }
        }
        r
    }

    /// `self * 10^k`.
    pub fn tens(&self, k: u128) -> (r: Natural)
        ensures
            r.value() == self.value() * pow(10, k as nat),
    {
        let mut r: Natural = self.copy();
        let mut i: u128 = 0;
        proof {
            lemma_pow0(10);
            assert(self.value() * 1 == self.value());
        }
        while i < k
            invariant
                i <= k,
                r.value() == self.value() * pow(10, i as nat),
            decreases k - i,
        {
            r = r.scaled(10, 0);
            proof {
                reveal(pow);
                let (v, p) = (self.value() as int, pow(10, i as nat));
                assert(pow(10, (i + 1) as nat) == 10 * p);
                assert((v * p) * 10 == v * (10 * p)) by (nonlinear_arith);
            }
            i = i + 1;
        }
        r
    }

    /// Whether `self <= other`.
    pub fn at_most(&self, other: &Natural) -> (r: bool)
        ensures
            r == (self.value() <= other.value()),
    {
        let n: usize = if self.limbs.len() >= other.limbs.len() {
            self.limbs.len()
        } else {
            other.limbs.len()
        };
        let mut i: usize = n;
        assert(head(self.limbs@, n as int) =~= self.limbs@);
        assert(head(other.limbs@, n as int) =~= other.limbs@);
        while i > 0
            invariant
                n == if self.limbs@.len() >= other.limbs@.len() {
                    self.limbs@.len()
                } else {
                    other.limbs@.len()
                },
                i <= n,
                self.value() - other.value() == limbs_value(head(self.limbs@, i as int))
                    - limbs_value(head(other.limbs@, i as int)),
            decreases i,
        {
            i = i - 1;
            let x: u32 = if i < self.limbs.len() {
                self.limbs[i]
            } else {
                0
            };
            let y: u32 = if i < other.limbs.len() {
                other.limbs[i]
            } else {
                0
            };
            proof {
                lemma_head_step(self.limbs@, i as int, x);
                lemma_head_step(other.limbs@, i as int, y);
                lemma_head_bound(self.limbs@, i as int);
                lemma_head_bound(other.limbs@, i as int);
            }
            if x < y {
                proof {
                    let p = pow2((32 * i) as nat);
                    assert(x * p + p <= y * p) by (nonlinear_arith)
                        requires
                            x < y,
                    ;
                }
                return true;
            }
            if x > y {
                proof {
                    let p = pow2((32 * i) as nat);
                    assert(y * p + p <= x * p) by (nonlinear_arith)
                        requires
                            y < x,
                    ;
                }
                return false;
            }
        }
        assert(head(self.limbs@, 0) =~= Seq::<u32>::empty());
        assert(head(other.limbs@, 0) =~= Seq::<u32>::empty());
        true
    }
}

/// The first `k` limbs, or all of them where there are fewer.
spec fn head(s: Seq<u32>, k: int) -> Seq<u32> {
    if k <= s.len() {
        s.take(k)
    } else {
        s
    }
}

proof fn lemma_head_step(s: Seq<u32>, k: int, d: u32)
    requires
        0 <= k,
        d == (if k < s.len() {
            s[k]
        } else {
            0
        }),
    ensures
        limbs_value(head(s, k + 1)) == limbs_value(head(s, k)) + d as nat * pow2((32 * k) as nat),
{
    if k < s.len() {
        assert(head(s, k + 1) =~= head(s, k).push(d));
        lemma_limbs_push(head(s, k), d);
    } else {
        assert(head(s, k + 1) =~= head(s, k));
        assert(d as nat * pow2((32 * k) as nat) == 0) by (nonlinear_arith)
            requires
                d == 0,
        ;
    }
}

proof fn lemma_head_bound(s: Seq<u32>, k: int)
    requires
        0 <= k,
    ensures
        limbs_value(head(s, k)) < pow2((32 * k) as nat),
    decreases k,
{
    lemma2_to64();
    if k == 0 {
        assert(head(s, 0) =~= Seq::<u32>::empty());
    } else {
        lemma_head_bound(s, k - 1);
        let d: u32 = if k - 1 < s.len() {
            s[k - 1]
        } else {
            0
        };
        lemma_head_step(s, k - 1, d);
        lemma_pow2_adds((32 * (k - 1)) as nat, 32);
        let p = pow2((32 * (k - 1)) as nat);
        assert(d as nat * p + p <= p * 0x1_0000_0000) by (nonlinear_arith)
            requires
                d <= 0xffff_ffff,
        ;
    }
}

// ---------------------------------------------------------------------
// Rounding
// ---------------------------------------------------------------------

/// `units(b) * den`.
fn units_times(b: u64, den: &Natural) -> (r: Natural)
    requires
        b <= INFINITY_BITS,
    ensures
        r.value() == units(b) * den.value(),
{
    let exponent: u64 = b / 0x10_0000_0000_0000;
    let fraction: u64 = b % 0x10_0000_0000_0000;
    if exponent == 0 {
        let r: Natural = den.times(fraction);
        assert(den.value() * fraction as nat == fraction as nat * den.value()) by (nonlinear_arith);
        r
    } else {
        let m: u64 = 0x10_0000_0000_0000 + fraction;
        let r: Natural = den.times(m).doubled(exponent - 1);
        let ghost p = pow2((exponent - 1) as nat);
        assert((den.value() * m as nat) * p == (m as nat * p) * den.value()) by (nonlinear_arith);
        r
    }
}

/// The double nearest to `num / den` units.
fn round_ratio(num: &Natural, den: &Natural) -> (r: u64)
    requires
        den.value() > 0,
    ensures
        r == rounded(num.value(), den.value()),
        r <= INFINITY_BITS,
{
    if units_times(INFINITY_BITS, den).at_most(num) {
        proof {
            lemma_nearest_infinity(num.value(), den.value());
            lemma_rounded_is(INFINITY_BITS, num.value(), den.value());
        }
        return INFINITY_BITS;
    }
    let mut low: u64 = 0;
    let mut high: u64 = INFINITY_BITS;
    proof {
        assert(units(0) * den.value() == 0) by (nonlinear_arith)
            requires
                units(0) == 0,
        ;
    }
    while high - low > 1
        invariant
            low < high <= INFINITY_BITS,
            units(low) * den.value() <= num.value(),
            num.value() < units(high) * den.value(),
        decreases high - low,
    {
        let mid: u64 = low + (high - low) / 2;
        if units_times(mid, den).at_most(num) {
            low = mid;
        } else {
            high = mid;
        }
    }
    let below: Natural = units_times(low, den);
    let above: Natural = units_times(high, den);
    let sum: Natural = below.plus(&above);
    let twice: Natural = num.scaled(2, 0);
    proof {
        lemma_nearest_of_two(low, num.value(), den.value());
    }
    let up: bool = if !sum.at_most(&twice) {
        false
    } else if !twice.at_most(&sum) {
        true
    } else {
        low % 2 == 1
    };
    if up {
        proof {
            lemma_rounded_is(high, num.value(), den.value());
        }
        high
    } else {
        proof {
            lemma_rounded_is(low, num.value(), den.value());
        }
        low
    }
}

/// One, in units.
pub open spec fn one_in_units() -> nat {
    pow2(1074)
}

/// The bits of the double nearest to the integer `n`.
pub open spec fn int_bits(n: int) -> u64 {
    if n < 0 {
        (SIGN_BIT + rounded((-n) as nat * one_in_units(), 1)) as u64
    } else {
        rounded(n as nat * one_in_units(), 1)
    }
}

/// The double nearest to a whole number is a number.
pub proof fn lemma_int_is_number(n: i64)
    ensures
        !(Float64 { bits: int_bits(n as int) }).nan(),
{
    if n < 0 {
        lemma_rounded_nearest((-(n as int)) as nat * one_in_units(), 1);
    } else {
        lemma_rounded_nearest(n as nat * one_in_units(), 1);
    }
}

impl Float64 {
    /// The double nearest to `n`.
    pub fn from_u64(n: u64) -> (r: Float64)
        ensures
            r.bits == int_bits(n as int),
    {
        let num: Natural = Natural::of(n).doubled(1074);
        let bits: u64 = round_ratio(&num, &Natural::of(1));
        Float64 { bits }
    }

    /// The double nearest to `n`.
    pub fn from_i64(n: i64) -> (r: Float64)
        ensures
            r.bits == int_bits(n as int),
    {
        if n >= 0 {
            Float64::from_u64(n as u64)
        } else {
            let size: u64 = if n == i64::MIN {
                0x8000_0000_0000_0000
            } else {
                (-n) as u64
            };
            let num: Natural = Natural::of(size).doubled(1074);
            let bits: u64 = round_ratio(&num, &Natural::of(1));
            Float64 { bits: SIGN_BIT + bits }
        }
    }
}

// ---------------------------------------------------------------------
// Decimal text
// ---------------------------------------------------------------------

/// The bits of the double nearest to `digits * 10^exponent`.
pub open spec fn decimal_bits(digits: nat, exponent: int) -> u64 {
    if exponent >= 0 {
        rounded((digits * pow(10, exponent as nat)) as nat * one_in_units(), 1)
    } else {
        rounded(digits * one_in_units(), pow(10, (-exponent) as nat) as nat)
    }
}

/// The end of the run of digits that begins at `from`.
pub open spec fn run_end(s: Seq<char>, from: int) -> int
    decreases s.len() - from,
{
    if 0 <= from < s.len() && chars::is_digit(s[from]) {
        run_end(s, from + 1)
    } else {
        from
    }
}

/// What an unsigned decimal number writes: its digits without the point,
/// and the power of ten that they count. Digits stand before or after the
/// point, and an exponent has digits.
pub open spec fn decimal_parts(s: Seq<char>) -> Option<(Seq<char>, int)> {
    let i = run_end(s, 0);
    let dot = i < s.len() && s[i] == '.';
    let j = if dot {
        run_end(s, i + 1)
    } else {
        i
    };
    let places = if dot {
        j - i - 1
    } else {
        0
    };
    let digits = if dot {
        s.subrange(0, i) + s.subrange(i + 1, j)
    } else {
        s.subrange(0, i)
    };
    if digits.len() == 0 {
        None
    } else if j == s.len() {
        Some((digits, -places))
    } else if s[j] == 'e' || s[j] == 'E' {
        let signed = j + 1 < s.len() && (s[j + 1] == '+' || s[j + 1] == '-');
        let k = if signed {
            j + 2
        } else {
            j + 1
        };
        if k < s.len() && run_end(s, k) == s.len() {
            let size = chars::digits_value(s.subrange(k, s.len() as int)) as int;
            if signed && s[j + 1] == '-' {
                Some((digits, -size - places))
            } else {
                Some((digits, size - places))
            }
        } else {
            None
        }
    } else {
        None
    }
}

/// What an unsigned decimal text reads as: infinity, not-a-number, or the
/// double nearest to the number.
pub open spec fn read_magnitude(s: Seq<char>) -> Option<u64> {
    let word = chars::lowered(s);
    if word == "inf"@ || word == "infinity"@ {
        Some(INFINITY_BITS)
    } else if word == "nan"@ {
        Some(NAN_BITS)
    } else {
        match decimal_parts(s) {
            Some((digits, exponent)) => Some(
                decimal_bits(chars::digits_value(digits), exponent),
            ),
            None => None,
        }
    }
}

/// What a decimal text reads as, as a double.
pub open spec fn read_f64(s: Seq<char>) -> Option<Float64> {
    if s.len() > 0 && (s[0] == '-' || s[0] == '+') {
        match read_magnitude(s.drop_first()) {
            Some(bits) => Some(
                (Float64 {
                    bits: if s[0] == '-' {
                        (SIGN_BIT + bits) as u64
                    } else {
                        bits
                    },
                }),
            ),
            None => None,
        }
    } else {
        match read_magnitude(s) {
            Some(bits) => Some((Float64 { bits })),
            None => None,
        }
    }
}

/// A run of digits ends at or after its start, within the text.
proof fn lemma_run_end(s: Seq<char>, from: int)
    requires
        0 <= from <= s.len(),
    ensures
        from <= run_end(s, from) <= s.len(),
        forall|k: int| from <= k < run_end(s, from) ==> chars::is_digit(#[trigger] s[k]),
    decreases s.len() - from,
{
    if from < s.len() && chars::is_digit(s[from]) {
        lemma_run_end(s, from + 1);
    }
}

/// The end of the run of digits that begins at `from`.
fn digits_end(s: &Vec<char>, from: usize) -> (r: usize)
    requires
        from <= s@.len(),
    ensures
        r == run_end(s@, from as int),
        from <= r <= s@.len(),
        forall|k: int| from <= k < r ==> chars::is_digit(#[trigger] s@[k]),
{
    let mut i: usize = from;
    while i < s.len() && chars::digit(s[i])
        invariant
            from <= i <= s@.len(),
            run_end(s@, i as int) == run_end(s@, from as int),
            forall|k: int| from <= k < i ==> chars::is_digit(#[trigger] s@[k]),
        decreases s.len() - i,
    {
        i = i + 1;
    }
    i
}

/// The number that the digits `s[from..to]`, after those of `before`,
/// write.
fn gather(before: Natural, s: &Vec<char>, from: usize, to: usize) -> (r: Natural)
    requires
        from <= to <= s@.len(),
        forall|k: int| from <= k < to ==> chars::is_digit(#[trigger] s@[k]),
    ensures
        forall|p: Seq<char>| #[trigger]
            chars::digits_value(p) == before.value() ==> r.value() == chars::digits_value(
                p + s@.subrange(from as int, to as int),
            ),
{
    let mut r: Natural = before;
    let mut i: usize = from;
    assert forall|p: Seq<char>| #[trigger]
        chars::digits_value(p) == r.value() implies r.value() == chars::digits_value(
        p + s@.subrange(from as int, i as int),
    ) by {
        assert(p + s@.subrange(from as int, i as int) =~= p);
    }
    while i < to
        invariant
            from <= i <= to <= s@.len(),
            forall|k: int| from <= k < to ==> chars::is_digit(#[trigger] s@[k]),
            forall|p: Seq<char>| #[trigger]
                chars::digits_value(p) == before.value() ==> r.value() == chars::digits_value(
                    p + s@.subrange(from as int, i as int),
                ),
        decreases to - i,
    {
        let c: char = s[i];
        let d: u32 = c as u32 - '0' as u32;
        let ghost had = r.value();
        r = r.scaled(10, d);
        assert forall|p: Seq<char>| #[trigger]
            chars::digits_value(p) == before.value() implies r.value() == chars::digits_value(
            p + s@.subrange(from as int, i + 1),
        ) by {
            let whole = p + s@.subrange(from as int, i + 1);
            assert(whole.drop_last() =~= p + s@.subrange(from as int, i as int));
            assert(whole.last() == c);
        }
        i = i + 1;
    }
    r
}

/// The number that the digits from `from` on write; a number of `2^100`
/// or more may come out as any other such number.
fn gather_small(s: &Vec<char>, from: usize) -> (r: u128)
    requires
        from <= s@.len(),
        forall|k: int| from <= k < s@.len() ==> chars::is_digit(#[trigger] s@[k]),
    ensures
        ({
            let v = chars::digits_value(s@.subrange(from as int, s@.len() as int));
            r == v || (r >= 0x10_0000_0000_0000_0000_0000_0000u128 && v
                >= 0x10_0000_0000_0000_0000_0000_0000u128)
        }),
{
    let mut r: u128 = 0;
    let mut i: usize = from;
    assert(s@.subrange(from as int, i as int) =~= Seq::<char>::empty());
    while i < s.len()
        invariant
            from <= i <= s@.len(),
            forall|k: int| from <= k < s@.len() ==> chars::is_digit(#[trigger] s@[k]),
            r <= 0x100_0000_0000_0000_0000_0000_0000u128,
            ({
                let v = chars::digits_value(s@.subrange(from as int, i as int));
                r == v || (r >= 0x10_0000_0000_0000_0000_0000_0000u128 && v
                    >= 0x10_0000_0000_0000_0000_0000_0000u128)
            }),
        decreases s.len() - i,
    {
        let c: char = s[i];
        let d: u128 = (c as u32 - '0' as u32) as u128;
        proof {
            let whole = s@.subrange(from as int, i + 1);
            assert(whole.drop_last() =~= s@.subrange(from as int, i as int));
            assert(whole.last() == c);
        }
        if r < 0x10_0000_0000_0000_0000_0000_0000u128 {
            r = r * 10 + d;
        }
        i = i + 1;
    }
    r
}

/// `10^k >= 2^(3k)`.
proof fn lemma_ten_over_eight(k: nat)
    ensures
        pow(10, k) >= pow2(3 * k),
        pow(10, k) > 0,
    decreases k,
{
    lemma2_to64();
    if k == 0 {
        lemma_pow0(10);
    } else {
        lemma_ten_over_eight((k - 1) as nat);
        reveal(pow);
        lemma_pow2_adds((3 * (k - 1)) as nat, 3);
        assert(pow(10, k) == 10 * pow(10, (k - 1) as nat));
        assert(3 * k == 3 * (k - 1) + 3);
    }
}

/// `n` digits write less than `10^n`.
proof fn lemma_digits_bound(s: Seq<char>)
    requires
        chars::all_digits(s),
    ensures
        chars::digits_value(s) < pow(10, s.len()),
    decreases s.len(),
{
    if s.len() == 0 {
        lemma_pow0(10);
    } else {
        assert(chars::all_digits(s.drop_last())) by {
            assert forall|i: int| 0 <= i < s.drop_last().len() implies chars::is_digit(
                #[trigger] s.drop_last()[i],
            ) by {
                assert(chars::is_digit(s[i]));
            }
        }
        lemma_digits_bound(s.drop_last());
        assert(chars::is_digit(s.last()));
        reveal(pow);
        assert(pow(10, s.len()) == 10 * pow(10, (s.len() - 1) as nat));
    }
}

/// Nothing, or less than half a unit, rounds to zero.
proof fn lemma_rounds_to_zero(num: nat, den: nat)
    requires
        2 * num < den,
    ensures
        rounded(num, den) == 0,
{
    assert(units(0) * den == 0) by (nonlinear_arith)
        requires
            units(0) == 0,
    ;
    assert forall|c: u64| c <= INFINITY_BITS && c != 0 implies gap(
        units(0) * den as int,
        num as int,
    ) < gap(#[trigger] units(c) * den as int, num as int) by {
        lemma_units_grow(0, c);
        assert(units(c) * den >= den) by (nonlinear_arith)
            requires
                units(c) >= 1,
        ;
    }
    assert(nearest(0, num, den));
    lemma_rounded_is(0, num, den);
}

proof fn lemma_pow2_monotone(a: nat, b: nat)
    requires
        a <= b,
    ensures
        pow2(a) <= pow2(b),
{
    if a < b {
        lemma_pow2_strictly_increases(a, b);
    }
}

/// A number of at least `10^400` rounds to infinity.
proof fn lemma_huge(digits: nat, exponent: nat)
    requires
        digits > 0,
        exponent >= 400,
    ensures
        decimal_bits(digits, exponent as int) == INFINITY_BITS,
{
    let t = pow(10, exponent) as nat;
    lemma_ten_over_eight(exponent);
    lemma_pow2_monotone(1200, 3 * exponent);
    let one = one_in_units();
    lemma_pow2_pos(1074);
    lemma_pow2_adds(1200, 1074);
    lemma_pow2_monotone(2098, 2274);
    lemma_pow2_adds(52, 2046);
    lemma2_to64();
    let num = (digits * t) * one;
    assert(num >= pow2(1200) * one) by (nonlinear_arith)
        requires
            num == (digits * t) * one,
            digits >= 1,
            t >= pow2(1200),
    ;
    assert(INFINITY_BITS / 0x10_0000_0000_0000 == 2047);
    assert(units(INFINITY_BITS) == pow2(2098)) by {
        lemma2_to64_rest();
        assert(pow2(52) == 0x10_0000_0000_0000);
    }
    lemma_nearest_infinity(num, 1);
    lemma_rounded_is(INFINITY_BITS, num, 1);
}

/// `n` digits over `10^(n + 400)` or more round to zero.
proof fn lemma_tiny(digits: Seq<char>, exponent: nat)
    requires
        chars::all_digits(digits),
        exponent >= digits.len() + 400,
    ensures
        decimal_bits(chars::digits_value(digits), -(exponent as int)) == 0,
{
    lemma_digits_bound(digits);
    let v = chars::digits_value(digits);
    let n = digits.len();
    let a = pow(10, n) as nat;
    let rest = (exponent - n) as nat;
    let b = pow(10, rest) as nat;
    lemma_pow_adds(10, n, rest);
    lemma_ten_over_eight(rest);
    lemma_ten_over_eight(n);
    lemma_pow2_monotone(1200, 3 * rest);
    lemma_pow2_monotone(1075, 1200);
    lemma_pow2_unfold(1075);
    let one = one_in_units();
    assert(2 * (v * one) < a * b) by (nonlinear_arith)
        requires
            v < a,
            2 * one <= b,
            b > 0,
    ;
    lemma_rounds_to_zero(v * one, (a * b) as nat);
}

/// Zero over anything is zero.
proof fn lemma_zero_digits(exponent: int)
    ensures
        decimal_bits(0, exponent) == 0,
{
    let one = one_in_units();
    assert(0nat * one == 0);
    if exponent >= 0 {
        let t = pow(10, exponent as nat) as nat;
        assert((0nat * t) * one == 0) by (nonlinear_arith);
        lemma_rounds_to_zero(0, 1);
    } else {
        lemma_ten_over_eight((-exponent) as nat);
        lemma_rounds_to_zero(0, pow(10, (-exponent) as nat) as nat);
    }
}

/// The bits of `digits * 10^exponent`, for an exponent from zero on.
fn bits_up(digits: &Natural, exponent: u128) -> (r: u64)
    ensures
        r == decimal_bits(digits.value(), exponent as int),
        r <= INFINITY_BITS,
{
    if digits.at_most(&Natural::of(0)) {
        proof {
            lemma_zero_digits(exponent as int);
        }
        return 0;
    }
    if exponent >= 400 {
        proof {
            lemma_huge(digits.value(), exponent as nat);
        }
        return INFINITY_BITS;
    }
    proof {
        lemma_ten_over_eight(exponent as nat);
        assert(digits.value() * pow(10, exponent as nat) >= 0) by (nonlinear_arith)
            requires
                pow(10, exponent as nat) > 0,
        ;
    }
    let num: Natural = digits.tens(exponent).doubled(1074);
    round_ratio(&num, &Natural::of(1))
}

/// The bits of `digits / 10^exponent`, where the digits are `count` many.
fn bits_down(digits: &Natural, Ghost(text): Ghost<Seq<char>>, count: usize, exponent: u128) -> (r:
    u64)
    requires
        chars::all_digits(text),
        digits.value() == chars::digits_value(text),
        count == text.len(),
        exponent > 0,
    ensures
        r == decimal_bits(digits.value(), -(exponent as int)),
        r <= INFINITY_BITS,
{
    if exponent >= count as u128 + 400 {
        proof {
            lemma_tiny(text, exponent as nat);
        }
        return 0;
    }
    proof {
        lemma_ten_over_eight(exponent as nat);
        assert(1 * pow(10, exponent as nat) == pow(10, exponent as nat));
    }
    let num: Natural = digits.doubled(1074);
    let den: Natural = Natural::of(1).tens(exponent);
    round_ratio(&num, &den)
}

/// The unsigned decimal number in `s`, as the bits of a double.
fn magnitude_of(s: &Vec<char>) -> (r: Option<u64>)
    ensures
        r == read_magnitude(s@),
        r matches Some(b) ==> b < SIGN_BIT,
{
    if chars::reads_as(s, "inf") || chars::reads_as(s, "infinity") {
        return Some(INFINITY_BITS);
    }
    if chars::reads_as(s, "nan") {
        return Some(NAN_BITS);
    }
    let i: usize = digits_end(s, 0);
    let dot: bool = i < s.len() && s[i] == '.';
    let j: usize = if dot {
        digits_end(s, i + 1)
    } else {
        i
    };
    let places: usize = if dot {
        j - i - 1
    } else {
        0
    };
    let ghost text = if dot {
        s@.subrange(0, i as int) + s@.subrange(i + 1, j as int)
    } else {
        s@.subrange(0, i as int)
    };
    let whole: Natural = gather(Natural::of(0), s, 0, i);
    assert(chars::digits_value(Seq::<char>::empty()) == 0);
    assert(Seq::<char>::empty() + s@.subrange(0, i as int) =~= s@.subrange(0, i as int));
    let digits: Natural = if dot {
        gather(whole, s, i + 1, j)
    } else {
        whole
    };
    assert(digits.value() == chars::digits_value(text)) by {
        assert(chars::digits_value(s@.subrange(0, i as int)) == whole.value());
    }
    assert(chars::all_digits(text)) by {
        assert forall|k: int| 0 <= k < text.len() implies chars::is_digit(#[trigger] text[k]) by {
            if k < i {
                assert(chars::is_digit(s@[k]));
            } else {
                assert(chars::is_digit(s@[k + 1]));
            }
        }
    }
    if i == 0 && places == 0 {
        return None;
    }
    let count: u128 = i as u128 + places as u128;
    if count > usize::MAX as u128 {
        assert(j <= s@.len());
        assert(false);
    }
    let count: usize = count as usize;
    if j == s.len() {
        if places == 0 {
            return Some(bits_up(&digits, 0));
        }
        return Some(bits_down(&digits, Ghost(text), count, places as u128));
    }
    if s[j] != 'e' && s[j] != 'E' {
        return None;
    }
    let signed: bool = j + 1 < s.len() && (s[j + 1] == '+' || s[j + 1] == '-');
    let k: usize = if signed {
        j + 2
    } else {
        j + 1
    };
    if k >= s.len() {
        return None;
    }
    let end: usize = digits_end(s, k);
    if end != s.len() {
        return None;
    }
    let size: u128 = gather_small(s, k);
    let ghost v = chars::digits_value(s@.subrange(k as int, s@.len() as int));
    if signed && s[j + 1] == '-' {
        if size >= 0x10_0000_0000_0000_0000_0000_0000u128 {
            proof {
                lemma_tiny(text, (v + places) as nat);
            }
            return Some(0);
        }
        if size == 0 && places == 0 {
            return Some(bits_up(&digits, 0));
        }
        return Some(bits_down(&digits, Ghost(text), count, size + places as u128));
    }
    if size >= 0x10_0000_0000_0000_0000_0000_0000u128 {
        if digits.at_most(&Natural::of(0)) {
            proof {
                lemma_zero_digits(v - places);
            }
            return Some(0);
        }
        proof {
            lemma_huge(digits.value(), (v - places) as nat);
        }
        return Some(INFINITY_BITS);
    }
    if size >= places as u128 {
        Some(bits_up(&digits, size - places as u128))
    } else {
        Some(bits_down(&digits, Ghost(text), count, places as u128 - size))
    }
}

impl Float64 {
    /// `chars` read as a decimal double.
    pub fn of_chars(chars: &Vec<char>) -> (r: Option<Float64>)
        ensures
            r == read_f64(chars@),
    {
        if chars.len() > 0 && (chars[0] == '-' || chars[0] == '+') {
            let body: Vec<char> = chars::slice_chars(chars, 1, chars.len());
            assert(body@ =~= chars@.drop_first());
            match magnitude_of(&body) {
                Some(bits) => {
                    if chars[0] == '-' {
                        Some(Float64 { bits: SIGN_BIT + bits })
                    } else {
                        Some(Float64 { bits })
                    }
                },
                None => None,
            }
        } else {
            match magnitude_of(chars) {
                Some(bits) => Some(Float64 { bits }),
                None => None,
            }
        }
    }

    /// `text` read as a decimal double.
    pub fn parse(text: &str) -> (r: Option<Float64>)
        ensures
            r == read_f64(text@),
    {
        Float64::of_chars(&chars::chars_of(text))
    }
}

} // verus!
