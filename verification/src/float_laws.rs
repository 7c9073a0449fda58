//! How doubles are negated and read from decimal texts.
use crate::chars;
use crate::float;
use crate::float::{Float64, Side};
use vstd::arithmetic::power::pow;
use vstd::prelude::*;

verus! {

/// The double of the other sign stands on the other side of zero, as far
/// from it, and has the first as that of its other sign.
pub proof fn law_negation(x: Float64)
    ensures
        x.negated().negated() == x,
        x.negated().nan() == x.nan(),
        x.negated().finite() == x.finite(),
        x.negated().zero() == x.zero(),
        float::order_key(x.negated().bits) == -float::order_key(x.bits),
{
}

/// What stands below a double stands above it once both have the other
/// sign.
pub proof fn law_negation_turns_the_order(x: Float64, y: Float64)
    ensures
        x.compared(y) is Some <==> !x.nan() && !y.nan(),
        x.compared(y) == Some(Side::Below) <==> y.compared(x) == Some(Side::Above),
        x.compared(y) == Some(Side::Below) <==> x.negated().compared(y.negated()) == Some(
            Side::Above,
        ),
        x.compared(y) == Some(Side::Same) <==> x.negated().compared(y.negated()) == Some(
            Side::Same,
        ),
{
    law_negation(x);
    law_negation(y);
}

proof fn lemma_run(s: Seq<char>, from: int, end: int)
    requires
        0 <= from <= end <= s.len(),
        forall|i: int| from <= i < end ==> chars::is_digit(#[trigger] s[i]),
        end < s.len() ==> !chars::is_digit(s[end]),
    ensures
        float::run_end(s, from) == end,
    decreases end - from,
{
    if from < end {
        assert(chars::is_digit(s[from]));
        lemma_run(s, from + 1, end);
    }
}

/// A decimal number is read by its digits before and behind the point; each
/// digit behind it counts a tenth as much.
pub proof fn law_decimal_with_a_point(a: Seq<char>, b: Seq<char>)
    requires
        chars::all_digits(a),
        chars::all_digits(b),
        a.len() + b.len() > 0,
    ensures
        float::decimal_parts(a + seq!['.'] + b) == Some((a + b, -(b.len() as int))),
        a.len() > 0 ==> float::decimal_parts(a) == Some((a, 0int)),
{
    let s = a + seq!['.'] + b;
    let n = a.len() as int;
    assert forall|i: int| 0 <= i < n implies chars::is_digit(#[trigger] s[i]) by {
        assert(s[i] == a[i]);
    }
    assert(s[n] == '.');
    lemma_run(s, 0, n);
    assert forall|i: int| n + 1 <= i < s.len() implies chars::is_digit(#[trigger] s[i]) by {
        assert(s[i] == b[i - n - 1]);
    }
    lemma_run(s, n + 1, s.len() as int);
    assert(s.subrange(0, n) =~= a);
    assert(s.subrange(n + 1, s.len() as int) =~= b);
    if n > 0 {
        lemma_run(a, 0, n);
        assert(a.subrange(0, n) =~= a);
    }
}

/// An exponent behind a decimal number shifts it by as many places, up or,
/// behind a minus, down.
pub proof fn law_decimal_with_an_exponent(
    a: Seq<char>,
    b: Seq<char>,
    e: char,
    down: bool,
    x: Seq<char>,
)
    requires
        chars::all_digits(a),
        chars::all_digits(b),
        chars::all_digits(x),
        a.len() + b.len() > 0,
        x.len() > 0,
        e == 'e' || e == 'E',
    ensures
        ({
            let sign = if down {
                seq!['-']
            } else {
                seq!['+']
            };
            let size = chars::digits_value(x) as int;
            let mantissa = a + seq!['.'] + b;
            &&& float::decimal_parts(mantissa + seq![e] + sign + x) == Some(
                (
                    a + b,
                    if down {
                        -size - b.len()
                    } else {
                        size - b.len()
                    },
                ),
            )
            &&& float::decimal_parts(mantissa + seq![e] + x) == Some((a + b, size - b.len()))
        }),
{
    let sign = if down {
        seq!['-']
    } else {
        seq!['+']
    };
    let m = a + seq!['.'] + b;
    let n = a.len() as int;
    let j = m.len() as int;
    let s = m + seq![e] + sign + x;
    let u = m + seq![e] + x;
    assert forall|i: int| 0 <= i < n implies chars::is_digit(#[trigger] s[i]) && chars::is_digit(
        u[i],
    ) by {
        assert(s[i] == a[i]);
        assert(u[i] == a[i]);
    }
    assert forall|i: int| 0 <= i < n implies chars::is_digit(#[trigger] u[i]) by {
        assert(u[i] == a[i]);
    }
    assert(s[n] == '.');
    assert(u[n] == '.');
    lemma_run(s, 0, n);
    lemma_run(u, 0, n);
    assert forall|i: int| n + 1 <= i < j implies chars::is_digit(#[trigger] s[i]) by {
        assert(s[i] == b[i - n - 1]);
    }
    assert forall|i: int| n + 1 <= i < j implies chars::is_digit(#[trigger] u[i]) by {
        assert(u[i] == b[i - n - 1]);
    }
    assert(s[j] == e);
    assert(u[j] == e);
    lemma_run(s, n + 1, j);
    lemma_run(u, n + 1, j);
    assert(s.subrange(0, n) =~= a);
    assert(s.subrange(n + 1, j) =~= b);
    assert(u.subrange(0, n) =~= a);
    assert(u.subrange(n + 1, j) =~= b);
    assert(s[j + 1] == sign[0]);
    assert(chars::is_digit(x[0]));
    assert(u[j + 1] == x[0]);
    assert forall|i: int| j + 2 <= i < s.len() implies chars::is_digit(#[trigger] s[i]) by {
        assert(s[i] == x[i - j - 2]);
    }
    assert forall|i: int| j + 1 <= i < u.len() implies chars::is_digit(#[trigger] u[i]) by {
        assert(u[i] == x[i - j - 1]);
    }
    lemma_run(s, j + 2, s.len() as int);
    lemma_run(u, j + 1, u.len() as int);
    assert(s.subrange(j + 2, s.len() as int) =~= x);
    assert(u.subrange(j + 1, u.len() as int) =~= x);
}

/// The double that decimal digits stand for is the one nearest to the
/// number, whatever power of ten they count.
pub proof fn law_decimal_is_nearest(digits: nat, exponent: nat)
    ensures
        float::nearest(
            float::decimal_bits(digits, exponent as int),
            (digits * pow(10, exponent)) as nat * float::one_in_units(),
            1,
        ),
        exponent > 0 ==> float::nearest(
            float::decimal_bits(digits, -(exponent as int)),
            digits * float::one_in_units(),
            pow(10, exponent) as nat,
        ),
{
    vstd::arithmetic::power::lemma_pow_positive(10, exponent);
    float::lemma_rounded_nearest((digits * pow(10, exponent)) as nat * float::one_in_units(), 1);
    float::lemma_rounded_nearest(digits * float::one_in_units(), pow(10, exponent) as nat);
}

/// A minus before a decimal text gives the double of the other sign, a plus
/// the same double; what is no number without them is none with them.
pub proof fn law_signs_before_a_number(s: Seq<char>)
    requires
        s.len() > 0,
        s[0] != '-',
        s[0] != '+',
    ensures
        float::read_f64(seq!['+'] + s) == float::read_f64(s),
        float::read_f64(seq!['-'] + s) == match float::read_f64(s) {
            Some(x) => Some(x.negated()),
            None => None,
        },
{
    assert((seq!['+'] + s).drop_first() =~= s);
    assert((seq!['-'] + s).drop_first() =~= s);
    match float::decimal_parts(s) {
        Some((digits, exponent)) => {
            let n = chars::digits_value(digits);
            if exponent >= 0 {
                law_decimal_is_nearest(n, exponent as nat);
            } else {
                law_decimal_is_nearest(n, (-exponent) as nat);
            }
        },
        None => {},
    }
}

} // verus!
