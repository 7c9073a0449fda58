//! What comparisons say of numbers, texts and truth values, and what
//! conditions say together.
use super::condition;
use super::condition::Relation;
use super::condition_laws;
use super::condition_laws::{in_braces, is_name, plain, unmarked, written};
use crate::chars;
use crate::comprehension::source::LiteralV;
use crate::comprehension::tuple::{TupleV, TupleValueV};
use crate::float;
use crate::float::Float64;
use vstd::prelude::*;

verus! {

/// A number as it is written.
pub open spec fn int_text(n: int) -> Seq<char> {
    if n < 0 {
        seq!['-'] + chars::decimal((-n) as nat)
    } else {
        chars::decimal(n as nat)
    }
}

/// A text in double quotes.
pub open spec fn in_quotes(s: Seq<char>) -> Seq<char> {
    seq!['"'] + s + seq!['"']
}

/// Whether the first value that a tuple has under a name is this one.
pub open spec fn binds(t: TupleV, n: Seq<char>, v: TupleValueV) -> bool {
    exists|i: int|
        0 <= i < t.len() && #[trigger] t[i] == (n, v) && forall|j: int|
            0 <= j < i ==> (#[trigger] t[j]).0 != n
}

/// Whether a text comes before another: at the first place where they
/// differ it has the smaller character, or it ends there.
pub open spec fn precedes(a: Seq<char>, b: Seq<char>) -> bool {
    exists|i: int|
        0 <= i <= a.len() && i < b.len() && #[trigger] a.take(i) == b.take(i) && (i == a.len()
            || a[i] < b[i])
}

proof fn lemma_binds(t: TupleV, n: Seq<char>, v: TupleValueV)
    requires
        binds(t, n, v),
    ensures
        condition::bound(t, n) == Some(v),
    decreases t.len(),
{
    let i = choose|i: int|
        0 <= i < t.len() && #[trigger] t[i] == (n, v) && forall|j: int|
            0 <= j < i ==> (#[trigger] t[j]).0 != n;
    if i > 0 {
        assert(t[0].0 != n);
        let rest = t.drop_first();
        assert(rest[i - 1] == (n, v));
        assert forall|j: int| 0 <= j < i - 1 implies (#[trigger] rest[j]).0 != n by {
            assert(rest[j] == t[j + 1]);
        }
        lemma_binds(rest, n, v);
    }
}

/// How a comparison is written.
proof fn lemma_written(a: Seq<char>, b: Seq<char>)
    ensures
        written(a, Relation::Eq, b) == a + " == "@ + b,
        written(a, Relation::Ne, b) == a + " != "@ + b,
        written(a, Relation::Lt, b) == a + " < "@ + b,
        written(a, Relation::Le, b) == a + " <= "@ + b,
        written(a, Relation::Gt, b) == a + " > "@ + b,
        written(a, Relation::Ge, b) == a + " >= "@ + b,
{
    reveal_strlit("==");
    reveal_strlit("!=");
    reveal_strlit("<");
    reveal_strlit("<=");
    reveal_strlit(">");
    reveal_strlit(">=");
    reveal_strlit(" == ");
    reveal_strlit(" != ");
    reveal_strlit(" < ");
    reveal_strlit(" <= ");
    reveal_strlit(" > ");
    reveal_strlit(" >= ");
    assert(written(a, Relation::Eq, b) =~= a + " == "@ + b);
    assert(written(a, Relation::Ne, b) =~= a + " != "@ + b);
    assert(written(a, Relation::Lt, b) =~= a + " < "@ + b);
    assert(written(a, Relation::Le, b) =~= a + " <= "@ + b);
    assert(written(a, Relation::Gt, b) =~= a + " > "@ + b);
    assert(written(a, Relation::Ge, b) =~= a + " >= "@ + b);
}

/// A written number is read as that number.
pub(crate) proof fn lemma_int_literal(x: i64)
    ensures
        plain(int_text(x as int)),
        condition::literal_of(int_text(x as int)) == Some(LiteralV::Int(x)),
{
    let s = int_text(x as int);
    let m = if x < 0 {
        (-(x as int)) as nat
    } else {
        x as nat
    };
    let d = chars::decimal(m);
    chars::lemma_decimal_digits(m);
    assert forall|i: int| 0 <= i < s.len() implies unmarked(#[trigger] s[i]) by {
        if x < 0 {
            if i > 0 {
                assert(s[i] == d[i - 1]);
                assert(chars::is_digit(d[i - 1]));
            }
        } else {
            assert(chars::is_digit(d[i]));
        }
    }
    condition_laws::lemma_side(s);
    assert(chars::is_digit(d[0]));
    reveal_strlit("true");
    reveal_strlit("false");
    assert("true"@[0] == 't' && "false"@[0] == 'f');
    assert(chars::lowered(s)[0] == s[0]);
    if x < 0 {
        assert(s.drop_first() =~= d);
    }
}

/// Neither a name in braces nor a text that begins with a brace is a
/// literal.
proof fn lemma_braces_no_literal(n: Seq<char>)
    requires
        is_name(n),
    ensures
        condition::literal_of(in_braces(n)) is None,
{
    let s = in_braces(n);
    condition_laws::lemma_braced(n);
    condition_laws::lemma_side(s);
    reveal_strlit("true");
    reveal_strlit("false");
    reveal_strlit("inf");
    reveal_strlit("infinity");
    reveal_strlit("nan");
    assert(s[0] == '{');
    assert(chars::lowered(s)[0] == '{');
    assert("true"@[0] == 't' && "false"@[0] == 'f');
    assert("inf"@[0] == 'i' && "infinity"@[0] == 'i' && "nan"@[0] == 'n');
    assert(!chars::is_digit(s[0]));
    assert(float::run_end(s, 0) == 0);
    assert(s.subrange(0, 0).len() == 0);
    assert(float::decimal_parts(s) is None);
}

/// A plain text is no name in braces.
pub(crate) proof fn lemma_plain_no_name(s: Seq<char>)
    requires
        plain(s),
    ensures
        condition::braced_name(s) is None,
{
    condition_laws::lemma_side(s);
    assert(unmarked(s[0]));
}

/// What the operators say of a name and a literal.
proof fn lemma_name_first(n: Seq<char>, v: TupleValueV, lit: Seq<char>, t: TupleV)
    requires
        is_name(n),
        binds(t, n, v),
        plain(lit),
        condition::literal_of(lit) is Some,
    ensures
        ({
            let w = condition::literal_tuple_value(condition::literal_of(lit)->0);
            let a = in_braces(n);
            &&& condition::holds(a + " == "@ + lit, t) == condition::compared(v, Relation::Eq, w)
            &&& condition::holds(a + " != "@ + lit, t) == condition::compared(v, Relation::Ne, w)
            &&& condition::holds(a + " < "@ + lit, t) == condition::compared(v, Relation::Lt, w)
            &&& condition::holds(a + " <= "@ + lit, t) == condition::compared(v, Relation::Le, w)
            &&& condition::holds(a + " > "@ + lit, t) == condition::compared(v, Relation::Gt, w)
            &&& condition::holds(a + " >= "@ + lit, t) == condition::compared(v, Relation::Ge, w)
        }),
{
    let a = in_braces(n);
    lemma_binds(t, n, v);
    lemma_written(a, lit);
    condition_laws::lemma_braced(n);
    condition_laws::lemma_comparison_says(a, Relation::Eq, lit, t);
    condition_laws::lemma_comparison_says(a, Relation::Ne, lit, t);
    condition_laws::lemma_comparison_says(a, Relation::Lt, lit, t);
    condition_laws::lemma_comparison_says(a, Relation::Le, lit, t);
    condition_laws::lemma_comparison_says(a, Relation::Gt, lit, t);
    condition_laws::lemma_comparison_says(a, Relation::Ge, lit, t);
}

/// A comparison of a name with a whole number holds exactly when the value
/// stands to the number as the operator says.
pub proof fn law_integers_compared(n: Seq<char>, v: i64, x: i64, t: TupleV)
    requires
        is_name(n),
        binds(t, n, TupleValueV::I64(v)),
    ensures
        condition::holds(in_braces(n) + " == "@ + int_text(x as int), t) <==> v == x,
        condition::holds(in_braces(n) + " != "@ + int_text(x as int), t) <==> v != x,
        condition::holds(in_braces(n) + " < "@ + int_text(x as int), t) <==> v < x,
        condition::holds(in_braces(n) + " <= "@ + int_text(x as int), t) <==> v <= x,
        condition::holds(in_braces(n) + " > "@ + int_text(x as int), t) <==> v > x,
        condition::holds(in_braces(n) + " >= "@ + int_text(x as int), t) <==> v >= x,
{
    lemma_int_literal(x);
    lemma_name_first(n, TupleValueV::I64(v), int_text(x as int), t);
}

/// With the number first, too.
pub proof fn law_integers_compared_from_the_left(n: Seq<char>, v: i64, x: i64, t: TupleV)
    requires
        is_name(n),
        binds(t, n, TupleValueV::I64(v)),
    ensures
        condition::holds(int_text(x as int) + " == "@ + in_braces(n), t) <==> x == v,
        condition::holds(int_text(x as int) + " != "@ + in_braces(n), t) <==> x != v,
        condition::holds(int_text(x as int) + " < "@ + in_braces(n), t) <==> x < v,
        condition::holds(int_text(x as int) + " <= "@ + in_braces(n), t) <==> x <= v,
        condition::holds(int_text(x as int) + " > "@ + in_braces(n), t) <==> x > v,
        condition::holds(int_text(x as int) + " >= "@ + in_braces(n), t) <==> x >= v,
{
    let a = int_text(x as int);
    let b = in_braces(n);
    lemma_int_literal(x);
    lemma_binds(t, n, TupleValueV::I64(v));
    lemma_written(a, b);
    lemma_plain_no_name(a);
    condition_laws::lemma_braced(n);
    condition_laws::lemma_comparison_says(a, Relation::Eq, b, t);
    condition_laws::lemma_comparison_says(a, Relation::Ne, b, t);
    condition_laws::lemma_comparison_says(a, Relation::Lt, b, t);
    condition_laws::lemma_comparison_says(a, Relation::Le, b, t);
    condition_laws::lemma_comparison_says(a, Relation::Gt, b, t);
    condition_laws::lemma_comparison_says(a, Relation::Ge, b, t);
}

/// A comparison of two names holds exactly when their values stand to each
/// other as the operator says, be they signed or unsigned.
pub proof fn law_names_compared(a: Seq<char>, b: Seq<char>, v: int, x: int, signed: bool, t: TupleV)
    requires
        is_name(a),
        is_name(b),
        signed ==> i64::MIN <= v <= i64::MAX && i64::MIN <= x <= i64::MAX && binds(
            t,
            a,
            TupleValueV::I64(v as i64),
        ) && binds(t, b, TupleValueV::I64(x as i64)),
        !signed ==> 0 <= v <= u64::MAX && 0 <= x <= u64::MAX && binds(
            t,
            a,
            TupleValueV::U64(v as u64),
        ) && binds(t, b, TupleValueV::U64(x as u64)),
    ensures
        condition::holds(in_braces(a) + " == "@ + in_braces(b), t) <==> v == x,
        condition::holds(in_braces(a) + " != "@ + in_braces(b), t) <==> v != x,
        condition::holds(in_braces(a) + " < "@ + in_braces(b), t) <==> v < x,
        condition::holds(in_braces(a) + " <= "@ + in_braces(b), t) <==> v <= x,
        condition::holds(in_braces(a) + " > "@ + in_braces(b), t) <==> v > x,
        condition::holds(in_braces(a) + " >= "@ + in_braces(b), t) <==> v >= x,
{
    let p = in_braces(a);
    let q = in_braces(b);
    if signed {
        lemma_binds(t, a, TupleValueV::I64(v as i64));
        lemma_binds(t, b, TupleValueV::I64(x as i64));
    } else {
        lemma_binds(t, a, TupleValueV::U64(v as u64));
        lemma_binds(t, b, TupleValueV::U64(x as u64));
    }
    lemma_written(p, q);
    condition_laws::lemma_braced(a);
    condition_laws::lemma_braced(b);
    lemma_braces_no_literal(a);
    lemma_braces_no_literal(b);
    condition_laws::lemma_comparison_says(p, Relation::Eq, q, t);
    condition_laws::lemma_comparison_says(p, Relation::Ne, q, t);
    condition_laws::lemma_comparison_says(p, Relation::Lt, q, t);
    condition_laws::lemma_comparison_says(p, Relation::Le, q, t);
    condition_laws::lemma_comparison_says(p, Relation::Gt, q, t);
    condition_laws::lemma_comparison_says(p, Relation::Ge, q, t);
}

/// The order of texts is that of their first different characters.
pub proof fn law_text_order(a: Seq<char>, b: Seq<char>)
    ensures
        condition::text_side(a, b) is Same <==> a == b,
        condition::text_side(a, b) is Below <==> precedes(a, b),
        condition::text_side(a, b) is Above <==> precedes(b, a),
    decreases a.len(),
{
    if a.len() > 0 && b.len() > 0 && a[0] == b[0] {
        law_text_order(a.drop_first(), b.drop_first());
        lemma_precedes_behind(a, b);
        lemma_precedes_behind(b, a);
        if a.drop_first() == b.drop_first() {
            assert(a =~= b) by {
                assert forall|i: int| 0 <= i < a.len() implies a[i] == b[i] by {
                    if i > 0 {
                        assert(a[i] == a.drop_first()[i - 1]);
                        assert(b[i] == b.drop_first()[i - 1]);
                    }
                }
                assert(a.drop_first().len() == b.drop_first().len());
            }
        }
    } else {
        lemma_precedes_at_start(a, b);
        lemma_precedes_at_start(b, a);
        if a.len() == 0 && b.len() == 0 {
            assert(a =~= b);
        }
    }
}

proof fn lemma_precedes_behind(a: Seq<char>, b: Seq<char>)
    requires
        a.len() > 0,
        b.len() > 0,
        a[0] == b[0],
    ensures
        precedes(a, b) == precedes(a.drop_first(), b.drop_first()),
{
    let x = a.drop_first();
    let y = b.drop_first();
    if precedes(a, b) {
        let i = choose|i: int|
            0 <= i <= a.len() && i < b.len() && #[trigger] a.take(i) == b.take(i) && (i == a.len()
                || a[i] < b[i]);
        assert(x.take(i - 1) =~= a.take(i).drop_first());
        assert(y.take(i - 1) =~= b.take(i).drop_first());
        assert(x.take(i - 1) == y.take(i - 1));
    }
    if precedes(x, y) {
        let i = choose|i: int|
            0 <= i <= x.len() && i < y.len() && #[trigger] x.take(i) == y.take(i) && (i == x.len()
                || x[i] < y[i]);
        assert(a.take(i + 1) =~= seq![a[0]] + x.take(i));
        assert(b.take(i + 1) =~= seq![b[0]] + y.take(i));
        assert(a.take(i + 1) == b.take(i + 1));
    }
}

proof fn lemma_precedes_at_start(a: Seq<char>, b: Seq<char>)
    requires
        a.len() == 0 || b.len() == 0 || a[0] != b[0],
    ensures
        precedes(a, b) == (b.len() > 0 && (a.len() == 0 || a[0] < b[0])),
{
    if precedes(a, b) {
        let i = choose|i: int|
            0 <= i <= a.len() && i < b.len() && #[trigger] a.take(i) == b.take(i) && (i == a.len()
                || a[i] < b[i]);
        if i > 0 {
            assert(a.take(i)[0] == a[0]);
            assert(b.take(i)[0] == b[0]);
        }
    }
    if b.len() > 0 && (a.len() == 0 || a[0] < b[0]) {
        assert(a.take(0) =~= b.take(0));
    }
}

/// A comparison of a name with a text in quotes goes by the order of texts.
pub proof fn law_texts_compared(n: Seq<char>, v: Seq<char>, x: Seq<char>, t: TupleV)
    requires
        is_name(n),
        binds(t, n, TupleValueV::Str(v)),
        forall|i: int| 0 <= i < x.len() ==> unmarked(#[trigger] x[i]),
    ensures
        condition::holds(in_braces(n) + " == "@ + in_quotes(x), t) <==> v == x,
        condition::holds(in_braces(n) + " != "@ + in_quotes(x), t) <==> v != x,
        condition::holds(in_braces(n) + " < "@ + in_quotes(x), t) <==> precedes(v, x),
        condition::holds(in_braces(n) + " <= "@ + in_quotes(x), t) <==> !precedes(x, v),
        condition::holds(in_braces(n) + " > "@ + in_quotes(x), t) <==> precedes(x, v),
        condition::holds(in_braces(n) + " >= "@ + in_quotes(x), t) <==> !precedes(v, x),
{
    let s = in_quotes(x);
    assert forall|i: int| 0 <= i < s.len() implies unmarked(#[trigger] s[i]) by {
        if 0 < i < s.len() - 1 {
            assert(s[i] == x[i - 1]);
        }
    }
    condition_laws::lemma_side(s);
    reveal_strlit("true");
    reveal_strlit("false");
    assert("true"@[0] == 't' && "false"@[0] == 'f');
    assert(chars::lowered(s)[0] == '"');
    assert(s[0] == '"' && s.last() == '"');
    assert(s.subrange(1, s.len() - 1) =~= x);
    lemma_name_first(n, TupleValueV::Str(v), s, t);
    law_text_order(v, x);
}

/// A comparison of a name with a truth value: false comes before true.
pub proof fn law_truths_compared(n: Seq<char>, v: bool, x: bool, t: TupleV)
    requires
        is_name(n),
        binds(t, n, TupleValueV::Bool(v)),
    ensures
        ({
            let lit = if x {
                "true"@
            } else {
                "false"@
            };
            &&& condition::holds(in_braces(n) + " == "@ + lit, t) <==> v == x
            &&& condition::holds(in_braces(n) + " != "@ + lit, t) <==> v != x
            &&& condition::holds(in_braces(n) + " < "@ + lit, t) <==> !v && x
            &&& condition::holds(in_braces(n) + " <= "@ + lit, t) <==> (v ==> x)
            &&& condition::holds(in_braces(n) + " > "@ + lit, t) <==> v && !x
            &&& condition::holds(in_braces(n) + " >= "@ + lit, t) <==> (x ==> v)
        }),
{
    let lit = if x {
        "true"@
    } else {
        "false"@
    };
    reveal_strlit("true");
    reveal_strlit("false");
    assert forall|i: int| 0 <= i < lit.len() implies unmarked(#[trigger] lit[i]) by {}
    condition_laws::lemma_side(lit);
    assert(chars::lowered(lit) =~= lit);
    assert("true"@.len() != "false"@.len());
    lemma_name_first(n, TupleValueV::Bool(v), lit, t);
}

/// No comparison holds of values of two kinds, but for whole numbers with
/// doubles.
pub proof fn law_kinds_apart(n: Seq<char>, v: TupleValueV, lit: Seq<char>, t: TupleV)
    requires
        is_name(n),
        binds(t, n, v),
        plain(lit),
        condition::literal_of(lit) matches Some(l) && match l {
            LiteralV::Int(_) => !(v is I64 || v is F64),
            LiteralV::Float(_) => !(v is I64 || v is F64),
            LiteralV::Text(_) => !(v is Str),
            LiteralV::Bool(_) => !(v is Bool),
        },
    ensures
        !condition::holds(in_braces(n) + " == "@ + lit, t),
        !condition::holds(in_braces(n) + " != "@ + lit, t),
        !condition::holds(in_braces(n) + " < "@ + lit, t),
        !condition::holds(in_braces(n) + " <= "@ + lit, t),
        !condition::holds(in_braces(n) + " > "@ + lit, t),
        !condition::holds(in_braces(n) + " >= "@ + lit, t),
{
    lemma_name_first(n, v, lit, t);
}

/// The value of a double other than not-a-number, in units of the smallest
/// positive one.
pub open spec fn double_value(x: Float64) -> int {
    if x.bits >= float::SIGN_BIT {
        -(float::units((x.bits - float::SIGN_BIT) as u64) as int)
    } else {
        float::units(x.bits) as int
    }
}

/// Doubles are ordered as their values are.
pub proof fn law_double_order(a: Float64, b: Float64)
    requires
        !a.nan(),
        !b.nan(),
    ensures
        a.compared(b) == Some(float::side_of(double_value(a), double_value(b))),
{
    let m = float::magnitude(a.bits) as u64;
    let k = float::magnitude(b.bits) as u64;
    assert(float::units(0) == 0);
    if m < k {
        float::lemma_units_grow(m, k);
    }
    if k < m {
        float::lemma_units_grow(k, m);
    }
    if 0 < m {
        float::lemma_units_grow(0, m);
    }
    if 0 < k {
        float::lemma_units_grow(0, k);
    }
}

/// A comparison of a name with a decimal fraction goes by the values of the
/// doubles; a whole number counts as the double nearest to it.
pub proof fn law_doubles_compared(n: Seq<char>, v: TupleValueV, lit: Seq<char>, y: Float64, t: TupleV)
    requires
        is_name(n),
        binds(t, n, v),
        v is F64 || v is I64,
        plain(lit),
        condition::literal_of(lit) == Some(LiteralV::Float(y)),
        v matches TupleValueV::F64(x) ==> !x.nan(),
        !y.nan(),
    ensures
        ({
            let a = match v {
                TupleValueV::F64(x) => double_value(x),
                TupleValueV::I64(i) => double_value(Float64 { bits: float::int_bits(i as int) }),
                _ => 0,
            };
            let b = double_value(y);
            &&& condition::holds(in_braces(n) + " == "@ + lit, t) <==> a == b
            &&& condition::holds(in_braces(n) + " != "@ + lit, t) <==> a != b
            &&& condition::holds(in_braces(n) + " < "@ + lit, t) <==> a < b
            &&& condition::holds(in_braces(n) + " <= "@ + lit, t) <==> a <= b
            &&& condition::holds(in_braces(n) + " > "@ + lit, t) <==> a > b
            &&& condition::holds(in_braces(n) + " >= "@ + lit, t) <==> a >= b
        }),
{
    lemma_name_first(n, v, lit, t);
    match v {
        TupleValueV::F64(x) => {
            law_double_order(x, y);
        },
        TupleValueV::I64(i) => {
            let x = Float64 { bits: float::int_bits(i as int) };
            float::lemma_int_is_number(i);
            law_double_order(x, y);
        },
        _ => {},
    }
}

/// The texts `true` and `false` say what they read.
pub proof fn law_truth_texts(t: TupleV)
    ensures
        condition::holds("true"@, t),
        !condition::holds("false"@, t),
{
    reveal_strlit("true");
    reveal_strlit("false");
    assert(chars::lowered("true"@) =~= "true"@);
    assert(chars::lowered("false"@) =~= "false"@);
    assert("true"@.len() != "false"@.len());
    assert(chars::trim("true"@) == "true"@);
    assert(chars::trim("false"@) == "false"@);
}

/// Whether a text can stand beside an operator between conditions: there is
/// no white space around it, its brackets are closed, and the operator does
/// not stand in it.
pub open spec fn stands_alone(p: Seq<char>, op: Seq<char>) -> bool {
    &&& p.len() > 0
    &&& chars::trim(p) == p
    &&& condition::level(p, p.len() as int) == 0
    &&& !chars::occurs(p, op)
}

/// A text without white space around it begins and ends with none.
pub(crate) proof fn lemma_trimmed_ends(p: Seq<char>)
    requires
        p.len() > 0,
        chars::trim(p) == p,
    ensures
        !chars::is_space(p[0]),
        !chars::is_space(p.last()),
{
    if chars::is_space(p[0]) {
        condition::lemma_trim_shorter(p.drop_first());
        assert(chars::trim(p) == chars::trim(p.drop_first()));
    }
    if chars::is_space(p.last()) {
        chars::lemma_trim_drop_last(p);
        condition::lemma_trim_shorter(p.drop_last());
    }
}

/// Where a doubled character stands between two texts without it.
proof fn lemma_stands_between(p: Seq<char>, c: char, q: Seq<char>, i: int)
    requires
        c != ' ',
        !chars::occurs(p, seq![c, c]),
        !chars::occurs(q, seq![c, c]),
        chars::stands_at(p + seq![' ', c, c, ' '] + q, i, seq![c, c]),
    ensures
        i == p.len() + 1,
{
    let op = seq![c, c];
    let s = p + seq![' ', c, c, ' '] + q;
    assert(s.subrange(i, i + 2)[0] == s[i]);
    assert(s.subrange(i, i + 2)[1] == s[i + 1]);
    assert(s[i] == c && s[i + 1] == c);
    assert(s[p.len() as int] == ' ');
    assert(s[(p.len() + 3) as int] == ' ');
    if i + 2 <= p.len() {
        assert(p.subrange(i, i + 2) =~= op);
        assert(chars::stands_at(p, i, op));
    } else if i >= p.len() + 4 {
        let k = i - (p.len() + 4);
        assert(q.subrange(k, k + 2) =~= s.subrange(i, i + 2));
        assert(chars::stands_at(q, k, op));
    }
}

/// The texts on both sides of an operator between conditions.
proof fn lemma_two_pieces(p: Seq<char>, c: char, q: Seq<char>)
    requires
        c == '&' || c == '|',
        stands_alone(p, seq![c, c]),
        stands_alone(q, seq![c, c]),
    ensures
        ({
            let op = seq![c, c];
            let s = p + seq![' ', c, c, ' '] + q;
            &&& chars::trim(s) == s
            &&& condition::next_cut(s, op, 0) == Some((p.len() + 1) as int)
            &&& condition::pieces(s, op, 0) == seq![p, q]
        }),
{
    let op = seq![c, c];
    let s = p + seq![' ', c, c, ' '] + q;
    let at = (p.len() + 1) as int;
    lemma_trimmed_ends(p);
    lemma_trimmed_ends(q);
    assert(s[0] == p[0]);
    assert(s.last() == q.last());
    assert(chars::trim(s) == s);
    assert(s =~= p + (seq![' ', c, c, ' '] + q));
    condition_laws::lemma_level_prefix(p, seq![' ', c, c, ' '] + q, p.len() as int);
    condition::lemma_level_flat(s, p.len() as int, at + 1);
    assert(s.subrange(at, at + 2) =~= op);
    assert(condition::cut_at(s, op, at));
    lemma_cut_reached(s, op, 0, at, p, c, q);
    assert(s.subrange(0, at) =~= p.push(' '));
    assert(p.push(' ').drop_last() =~= p);
    chars::lemma_trim_drop_last(p.push(' '));
    let tail = s.subrange(at + 2, s.len() as int);
    assert(tail =~= seq![' '] + q);
    assert((seq![' '] + q).drop_first() =~= q);
    assert(chars::trim(seq![' '] + q) == chars::trim(q));
    assert forall|i: int| at + 2 <= i < s.len() implies !chars::stands_at(s, i, op) by {
        if chars::stands_at(s, i, op) {
            lemma_stands_between(p, c, q, i);
        }
    }
    lemma_no_cut_from(s, op, at + 2);
    assert(condition::pieces(s, op, at + 2) =~= seq![q]);
    assert(condition::pieces(s, op, 0) =~= seq![p] + seq![q]);
    assert(seq![p] + seq![q] =~= seq![p, q]);
}

proof fn lemma_cut_reached(
    s: Seq<char>,
    op: Seq<char>,
    from: int,
    at: int,
    p: Seq<char>,
    c: char,
    q: Seq<char>,
)
    requires
        0 <= from <= at < s.len(),
        c != ' ',
        op == seq![c, c],
        s == p + seq![' ', c, c, ' '] + q,
        at == p.len() + 1,
        !chars::occurs(p, op),
        !chars::occurs(q, op),
        condition::cut_at(s, op, at),
    ensures
        condition::next_cut(s, op, from) == Some(at),
    decreases at - from,
{
    if from < at {
        if chars::stands_at(s, from, op) {
            lemma_stands_between(p, c, q, from);
        }
        lemma_cut_reached(s, op, from + 1, at, p, c, q);
    }
}

proof fn lemma_no_cut_from(s: Seq<char>, op: Seq<char>, from: int)
    requires
        0 <= from,
        forall|i: int| from <= i < s.len() ==> !chars::stands_at(s, i, op),
    ensures
        condition::next_cut(s, op, from) is None,
    decreases s.len() - from,
{
    if from < s.len() {
        assert(!chars::stands_at(s, from, op));
        lemma_no_cut_from(s, op, from + 1);
    }
}

/// A text with a mark in it is neither `true` nor `false`.
proof fn lemma_marked_no_truth(s: Seq<char>, i: int)
    requires
        0 <= i < s.len(),
        s[i] == '&' || s[i] == '|' || s[i] == '{',
    ensures
        !condition::reads(s, "true"@),
        !condition::reads(s, "false"@),
{
    reveal_strlit("true");
    reveal_strlit("false");
    assert(chars::lowered(s)[i] == s[i]);
    assert forall|j: int| 0 <= j < "true"@.len() implies 'a' <= #[trigger] "true"@[j] <= 'z' by {}
    assert forall|j: int| 0 <= j < "false"@.len() implies 'a' <= #[trigger] "false"@[j] <= 'z' by {
    }
    if condition::reads(s, "true"@) {
        assert("true"@[i] == s[i]);
    }
    if condition::reads(s, "false"@) {
        assert("false"@[i] == s[i]);
    }
}

/// Two conditions with `&&` between them hold together exactly when each of
/// them does.
pub proof fn law_conjunction(p: Seq<char>, q: Seq<char>, t: TupleV)
    requires
        stands_alone(p, "&&"@),
        stands_alone(q, "&&"@),
        p[0] != '!',
    ensures
        condition::holds(p + " && "@ + q, t) <==> condition::holds(p, t) && condition::holds(q, t),
{
    reveal_strlit("&&");
    reveal_strlit(" && ");
    assert("&&"@ =~= seq!['&', '&']);
    assert(" && "@ =~= seq![' ', '&', '&', ' ']);
    let s = p + " && "@ + q;
    lemma_two_pieces(p, '&', q);
    lemma_marked_no_truth(s, (p.len() + 1) as int);
    assert(s[0] == p[0]);
    let parts = condition::pieces(s, "&&"@, 0);
    assert(parts[0] == p && parts[1] == q);
    assert(condition::holds(s, t) == (forall|i: int|
        0 <= i < parts.len() ==> (parts[i].len() < s.len() && condition::holds(
            #[trigger] parts[i],
            t,
        ))));
    if condition::holds(s, t) {
        assert(condition::holds(parts[0], t));
        assert(condition::holds(parts[1], t));
    }
}

/// Two conditions with `||` between them hold exactly when one of them
/// does; `&&` binds less tightly.
pub proof fn law_disjunction(p: Seq<char>, q: Seq<char>, t: TupleV)
    requires
        stands_alone(p, "||"@),
        stands_alone(q, "||"@),
        !chars::occurs(p, "&&"@),
        !chars::occurs(q, "&&"@),
        p[0] != '!',
    ensures
        condition::holds(p + " || "@ + q, t) <==> condition::holds(p, t) || condition::holds(q, t),
{
    reveal_strlit("&&");
    reveal_strlit("||");
    reveal_strlit(" || ");
    assert("&&"@ =~= seq!['&', '&']);
    assert("||"@ =~= seq!['|', '|']);
    assert(" || "@ =~= seq![' ', '|', '|', ' ']);
    let s = p + " || "@ + q;
    lemma_two_pieces(p, '|', q);
    lemma_marked_no_truth(s, (p.len() + 1) as int);
    assert(s[0] == p[0]);
    assert forall|i: int| 0 <= i < s.len() implies !chars::stands_at(s, i, "&&"@) by {
        if chars::stands_at(s, i, "&&"@) {
            assert(s.subrange(i, i + 2)[0] == s[i]);
            assert(s.subrange(i, i + 2)[1] == s[i + 1]);
            if i + 2 <= p.len() {
                assert(p.subrange(i, i + 2) =~= "&&"@);
                assert(chars::stands_at(p, i, "&&"@));
            } else if i >= p.len() + 4 {
                let k = i - (p.len() + 4);
                assert(q.subrange(k, k + 2) =~= s.subrange(i, i + 2));
                assert(chars::stands_at(q, k, "&&"@));
            } else {
                assert(s[p.len() as int] == ' ');
                assert(s[(p.len() + 1) as int] == '|');
                assert(s[(p.len() + 2) as int] == '|');
                assert(s[(p.len() + 3) as int] == ' ');
            }
        }
    }
    lemma_no_cut_from(s, "&&"@, 0);
    let parts = condition::pieces(s, "||"@, 0);
    assert(parts[0] == p && parts[1] == q);
    assert(condition::holds(s, t) == (exists|i: int|
        0 <= i < parts.len() && parts[i].len() < s.len() && condition::holds(
            #[trigger] parts[i],
            t,
        )));
    if condition::holds(p, t) {
        assert(condition::holds(parts[0], t));
    }
    if condition::holds(q, t) {
        assert(condition::holds(parts[1], t));
    }
}

/// Numbers as they are written in a list.
pub open spec fn list_text(xs: Seq<i64>) -> Seq<char>
    decreases xs.len(),
{
    if xs.len() == 0 {
        Seq::empty()
    } else if xs.len() == 1 {
        int_text(xs[0] as int)
    } else {
        int_text(xs[0] as int) + ", "@ + list_text(xs.drop_first())
    }
}

/// The pieces of a text behind another.
pub(crate) proof fn lemma_pieces_behind(a: Seq<char>, b: Seq<char>, from: int)
    requires
        0 <= from <= b.len(),
    ensures
        condition::next_comma(a + b, a.len() + from) == a.len() + condition::next_comma(b, from),
        from <= condition::next_comma(b, from) <= b.len(),
        condition::comma_pieces(a + b, a.len() + from) == condition::comma_pieces(b, from),
    decreases b.len() - from,
{
    if from < b.len() {
        assert((a + b)[a.len() + from] == b[from]);
        lemma_pieces_behind(a, b, from + 1);
    }
    let e = condition::next_comma(b, from);
    let s = a + b;
    if e < b.len() {
        assert(s.subrange(a.len() + from, a.len() + e) =~= b.subrange(from, e));
        lemma_pieces_behind(a, b, e + 1);
    } else {
        assert(s.subrange(a.len() + from, s.len() as int) =~= b.subrange(from, b.len() as int));
    }
}

pub(crate) proof fn lemma_comma_at(s: Seq<char>, from: int, e: int)
    requires
        0 <= from <= e <= s.len(),
        forall|i: int| from <= i < e ==> s[i] != ',',
        e < s.len() ==> s[e] == ',',
    ensures
        condition::next_comma(s, from) == e,
    decreases e - from,
{
    if from < e {
        lemma_comma_at(s, from + 1, e);
    }
}

/// A written number, perhaps behind a space, is a piece that equals that
/// number alone.
proof fn lemma_int_piece(w: Seq<char>, x: i64, v: i64)
    requires
        w == Seq::<char>::empty() || w == seq![' '],
    ensures
        condition::piece_matches(w + int_text(x as int), TupleValueV::I64(v)) <==> x == v,
        forall|i: int|
            0 <= i < (w + int_text(x as int)).len() ==> (#[trigger] (w + int_text(x as int))[i]) != ',',
{
    let a = int_text(x as int);
    let s = w + a;
    lemma_int_literal(x);
    condition_laws::lemma_side(a);
    if w.len() == 0 {
        assert(s =~= a);
    } else {
        assert(s.drop_first() =~= a);
        assert(chars::trim(s) == chars::trim(a));
    }
    lemma_no_comma(x);
    assert forall|i: int| 0 <= i < s.len() implies #[trigger] s[i] != ',' by {
        if i >= w.len() {
            assert(s[i] == a[i - w.len()]);
        }
    }
}

pub(crate) proof fn lemma_no_comma(x: i64)
    ensures
        forall|i: int| 0 <= i < int_text(x as int).len() ==> #[trigger] int_text(x as int)[i] != ',',
{
    let s = int_text(x as int);
    let m = if x < 0 {
        (-(x as int)) as nat
    } else {
        x as nat
    };
    let d = chars::decimal(m);
    chars::lemma_decimal_digits(m);
    assert forall|i: int| 0 <= i < s.len() implies #[trigger] s[i] != ',' by {
        if x < 0 {
            if i > 0 {
                assert(s[i] == d[i - 1]);
                assert(chars::is_digit(d[i - 1]));
            }
        } else {
            assert(chars::is_digit(d[i]));
        }
    }
}

/// Whether a piece of a run equals a number.
spec fn some_matches(all: Seq<Seq<char>>, v: i64) -> bool {
    exists|i: int|
        0 <= i < all.len() && condition::piece_matches(#[trigger] all[i], TupleValueV::I64(v))
}

/// A piece of a run equals a number where the first does, or one behind it.
proof fn lemma_some_step(head: Seq<char>, more: Seq<Seq<char>>, v: i64)
    ensures
        some_matches(seq![head] + more, v) <==> condition::piece_matches(
            head,
            TupleValueV::I64(v),
        ) || some_matches(more, v),
{
    let all = seq![head] + more;
    assert(all[0] == head);
    if some_matches(more, v) {
        let i = choose|i: int|
            0 <= i < more.len() && condition::piece_matches(#[trigger] more[i], TupleValueV::I64(v));
        assert(all[i + 1] == more[i]);
    }
    if some_matches(all, v) {
        let i = choose|i: int|
            0 <= i < all.len() && condition::piece_matches(#[trigger] all[i], TupleValueV::I64(v));
        if i > 0 {
            assert(all[i] == more[i - 1]);
        }
    }
}

/// The pieces of a list of two or more: the first, then those of the rest.
pub(crate) proof fn lemma_list_step(w: Seq<char>, xs: Seq<i64>)
    requires
        w == Seq::<char>::empty() || w == seq![' '],
        xs.len() > 1,
    ensures
        condition::comma_pieces(w + list_text(xs), 0) == seq![w + int_text(xs[0] as int)]
            + condition::comma_pieces(seq![' '] + list_text(xs.drop_first()), 0),
{
    let head = w + int_text(xs[0] as int);
    let s = w + list_text(xs);
    lemma_int_piece(w, xs[0], xs[0]);
    let rest = xs.drop_first();
    reveal_strlit(", ");
    assert(", "@ =~= seq![',', ' ']);
    let tail = seq![' '] + list_text(rest);
    assert(s =~= head + seq![','] + tail);
    let e = head.len() as int;
    assert forall|i: int| 0 <= i < e implies s[i] != ',' by {
        assert(s[i] == head[i]);
    }
    lemma_comma_at(s, 0, e);
    assert(s.subrange(0, e) =~= head);
    lemma_pieces_behind(head + seq![','], tail, 0);
    assert(condition::comma_pieces(s, e + 1) == condition::comma_pieces(tail, 0));
}

/// A written list has a piece equal to a value exactly when the value is in
/// the list.
proof fn lemma_listed(w: Seq<char>, xs: Seq<i64>, v: i64)
    requires
        w == Seq::<char>::empty() || w == seq![' '],
        xs.len() > 0,
    ensures
        some_matches(condition::comma_pieces(w + list_text(xs), 0), v) <==> xs.contains(v),
    decreases xs.len(),
{
    let head = w + int_text(xs[0] as int);
    let s = w + list_text(xs);
    let rest = xs.drop_first();
    lemma_int_piece(w, xs[0], v);
    if xs.len() == 1 {
        assert(s =~= head);
        lemma_comma_at(s, 0, s.len() as int);
        assert(s.subrange(0, s.len() as int) =~= s);
        let none = Seq::<Seq<char>>::empty();
        assert(condition::comma_pieces(s, 0) =~= seq![head] + none);
        lemma_some_step(head, none, v);
        assert(xs.contains(v) <==> xs[0] == v);
    } else {
        lemma_list_step(w, xs);
        lemma_some_step(head, condition::comma_pieces(seq![' '] + list_text(rest), 0), v);
        lemma_listed(seq![' '], rest, v);
        if rest.contains(v) {
            let k = rest.index_of(v);
            assert(xs[k + 1] == v);
        }
        if xs.contains(v) && xs[0] != v {
            let k = xs.index_of(v);
            assert(rest[k - 1] == v);
        }
    }
}

/// A membership in a written list of numbers holds exactly when the value
/// is one of them.
pub proof fn law_membership(n: Seq<char>, v: i64, xs: Seq<i64>, t: TupleV)
    requires
        is_name(n),
        binds(t, n, TupleValueV::I64(v)),
        xs.len() > 0,
    ensures
        condition::holds(in_braces(n) + " in ["@ + list_text(xs) + "]"@, t) <==> xs.contains(v),
{
    reveal_strlit(" in [");
    reveal_strlit("]");
    reveal_strlit(" in ");
    let a = in_braces(n);
    let list = list_text(xs);
    let s = a + " in ["@ + list + "]"@;
    lemma_binds(t, n, TupleValueV::I64(v));
    condition_laws::lemma_braced(n);
    condition_laws::lemma_side(a);
    assert(s[0] == '{' && s.last() == ']');
    assert(chars::trim(s) == s);
    lemma_marked_no_truth(s, 0);
    lemma_list_unmarked(xs);
    assert forall|i: int| 0 <= i < s.len() implies #[trigger] s[i] != '&' && s[i] != '|' by {
        if i < a.len() {
            assert(s[i] == a[i]);
        } else if i < a.len() + 5 {
            assert(s[i] == " in ["@[i - a.len()]);
        } else if i < s.len() - 1 {
            assert(s[i] == list[i - (a.len() + 5)]);
        }
    }
    reveal_strlit("&&");
    reveal_strlit("||");
    assert forall|i: int| 0 <= i < s.len() implies !chars::stands_at(s, i, "&&"@)
        && !chars::stands_at(s, i, "||"@) by {
        if chars::stands_at(s, i, "&&"@) {
            assert(s.subrange(i, i + 2)[0] == s[i]);
        }
        if chars::stands_at(s, i, "||"@) {
            assert(s.subrange(i, i + 2)[0] == s[i]);
        }
    }
    lemma_no_cut_from(s, "&&"@, 0);
    lemma_no_cut_from(s, "||"@, 0);
    let p = a.len() as int;
    assert(s.subrange(p, p + 4) =~= " in "@);
    lemma_in_reached(s, 0, a, p);
    assert(s.subrange(0, p) =~= a);
    let rhs = s.subrange(p + 4, s.len() as int);
    assert(rhs =~= seq!['['] + list + seq![']']);
    assert(rhs[0] == '[' && rhs.last() == ']');
    assert(chars::trim(rhs) == rhs);
    assert(rhs.subrange(1, rhs.len() - 1) =~= list);
    assert(condition::membership(s) == Some((n, list)));
    assert(Seq::<char>::empty() + list =~= list);
    lemma_listed(Seq::empty(), xs, v);
}

proof fn lemma_in_reached(s: Seq<char>, from: int, a: Seq<char>, p: int)
    requires
        0 <= from <= p < s.len(),
        p == a.len(),
        forall|i: int| 0 <= i < p ==> s[i] != ' ',
        chars::stands_at(s, p, " in "@),
    ensures
        condition::in_place(s, from) == Some(p),
    decreases p - from,
{
    reveal_strlit(" in ");
    if from < p {
        if chars::stands_at(s, from, " in "@) {
            assert(s.subrange(from, from + 4)[0] == s[from]);
        }
        lemma_in_reached(s, from + 1, a, p);
    }
}

proof fn lemma_list_unmarked(xs: Seq<i64>)
    ensures
        forall|i: int|
            0 <= i < list_text(xs).len() ==> #[trigger] list_text(xs)[i] != '&' && list_text(xs)[i]
                != '|',
    decreases xs.len(),
{
    if xs.len() > 0 {
        lemma_int_literal(xs[0]);
        let a = int_text(xs[0] as int);
        let s = list_text(xs);
        assert forall|i: int| 0 <= i < a.len() implies #[trigger] a[i] != '&' && a[i] != '|' by {
            assert(unmarked(a[i]));
        }
        if xs.len() > 1 {
            let rest = list_text(xs.drop_first());
            lemma_list_unmarked(xs.drop_first());
            reveal_strlit(", ");
            assert forall|i: int| 0 <= i < s.len() implies #[trigger] s[i] != '&' && s[i] != '|' by {
                if i < a.len() {
                    assert(s[i] == a[i]);
                } else if i >= a.len() + 2 {
                    assert(s[i] == rest[i - (a.len() + 2)]);
                }
            }
        }
    }
}

} // verus!
