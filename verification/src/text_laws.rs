//! What is read from texts and how numbers are written.
use crate::chars;
use vstd::prelude::*;

verus! {

/// Whether every character of a text is white space.
pub open spec fn blank(s: Seq<char>) -> bool {
    forall|i: int| 0 <= i < s.len() ==> chars::is_space(#[trigger] s[i])
}

proof fn lemma_trim_start(s: Seq<char>)
    ensures
        exists|a: Seq<char>| #[trigger] blank(a) && s == a + chars::trim_start(s),
        chars::trim_start(s).len() > 0 ==> !chars::is_space(chars::trim_start(s)[0]),
    decreases s.len(),
{
    let t = chars::trim_start(s);
    if s.len() > 0 && chars::is_space(s[0]) {
        let rest = s.drop_first();
        lemma_trim_start(rest);
        let a = choose|a: Seq<char>| #[trigger] blank(a) && rest == a + chars::trim_start(rest);
        let b = seq![s[0]] + a;
        assert forall|i: int| 0 <= i < b.len() implies chars::is_space(#[trigger] b[i]) by {
            if i > 0 {
                assert(b[i] == a[i - 1]);
            }
        }
        assert(blank(b));
        assert(s =~= seq![s[0]] + rest);
        assert(s =~= b + t);
    } else {
        let a = Seq::<char>::empty();
        assert(blank(a));
        assert(s =~= a + t);
    }
}

proof fn lemma_trim_end(s: Seq<char>)
    ensures
        exists|b: Seq<char>| #[trigger] blank(b) && s == chars::trim_end(s) + b,
        chars::trim_end(s).len() > 0 ==> !chars::is_space(chars::trim_end(s).last()),
    decreases s.len(),
{
    let t = chars::trim_end(s);
    if s.len() > 0 && chars::is_space(s.last()) {
        let rest = s.drop_last();
        lemma_trim_end(rest);
        let b = choose|b: Seq<char>| #[trigger] blank(b) && rest == chars::trim_end(rest) + b;
        let c = b.push(s.last());
        assert forall|i: int| 0 <= i < c.len() implies chars::is_space(#[trigger] c[i]) by {
            if i < b.len() {
                assert(c[i] == b[i]);
            }
        }
        assert(blank(c));
        assert(s =~= rest.push(s.last()));
        assert(s =~= t + c);
    } else {
        let b = Seq::<char>::empty();
        assert(blank(b));
        assert(s =~= t + b);
    }
}

/// Trimming takes white space off both ends and nothing else, and leaves
/// none there.
pub proof fn law_trim(s: Seq<char>)
    ensures
        exists|a: Seq<char>, b: Seq<char>| #[trigger]
            blank(a) && #[trigger] blank(b) && s == a + chars::trim(s) + b,
        chars::trim(s).len() > 0 ==> !chars::is_space(chars::trim(s)[0]) && !chars::is_space(
            chars::trim(s).last(),
        ),
{
    let m = chars::trim_start(s);
    let t = chars::trim(s);
    lemma_trim_start(s);
    lemma_trim_end(m);
    let a = choose|a: Seq<char>| #[trigger] blank(a) && s == a + m;
    let b = choose|b: Seq<char>| #[trigger] blank(b) && m == t + b;
    assert(s =~= a + t + b);
    if t.len() > 0 {
        assert(m[0] == t[0]);
    }
}

/// A capital letter becomes the small letter at its place in the alphabet;
/// no other character changes, and what is small stays so.
pub proof fn law_lower(c: char)
    ensures
        'A' <= c <= 'Z' ==> 'a' <= chars::lower(c) <= 'z' && chars::lower(c) as int - 'a' as int
            == c as int - 'A' as int,
        !('A' <= c <= 'Z') ==> chars::lower(c) == c,
        chars::lower(chars::lower(c)) == chars::lower(c),
{
    if 'A' <= c <= 'Z' {
        let n = (c as u32) + 32;
        assert(97 <= n <= 122);
        assert((n as char) as int == n);
    }
}

/// The decimal text of a number has no needless zero before it, and two
/// numbers never have the same text.
pub proof fn law_decimal_is_short(n: nat, m: nat)
    ensures
        chars::decimal(n)[0] == '0' <==> n == 0,
        chars::decimal(n) == chars::decimal(m) ==> n == m,
{
    lemma_first_digit(n);
    chars::lemma_decimal_digits(n);
    chars::lemma_decimal_digits(m);
}

proof fn lemma_first_digit(n: nat)
    ensures
        chars::decimal(n).len() > 0,
        chars::decimal(n)[0] == '0' <==> n == 0,
    decreases n,
{
    if n >= 10 {
        lemma_first_digit(n / 10);
    } else {
        chars::lemma_decimal_digits(n);
        let s = chars::decimal(n);
        assert(s == seq![chars::digit_char(n)]);
        assert(s.drop_last() =~= Seq::<char>::empty());
        assert(chars::digits_value(s.drop_last()) == 0);
        assert(chars::is_digit(s[0]));
    }
}

/// Every whole number that a signed number of sixty-four bits can be is read
/// from its digits, with a minus before them where it is negative and a plus
/// where it need not be; beyond that nothing is read.
pub proof fn law_signed_numbers_read_back(n: nat)
    ensures
        chars::read_i64(chars::decimal(n)) == if n <= i64::MAX {
            Some(n as i64)
        } else {
            None
        },
        chars::read_i64(seq!['+'] + chars::decimal(n)) == chars::read_i64(chars::decimal(n)),
        n <= -(i64::MIN as int) ==> (chars::read_i64(seq!['-'] + chars::decimal(n)) matches Some(v)
            && v as int == -(n as int)),
        n > -(i64::MIN as int) ==> chars::read_i64(seq!['-'] + chars::decimal(n)) is None,
{
    let d = chars::decimal(n);
    chars::lemma_decimal_digits(n);
    assert(chars::is_digit(d[0]));
    assert((seq!['+'] + d).drop_first() =~= d);
    assert((seq!['-'] + d).drop_first() =~= d);
}

/// A number beyond sixty-four bits is not read, nor is one with a minus, nor
/// a text without digits; a plus before a number changes nothing.
pub proof fn law_unsigned_numbers_read_back(n: nat)
    ensures
        chars::read_u64(chars::decimal(n)) == if n <= u64::MAX {
            Some(n as u64)
        } else {
            None
        },
        chars::read_u64(seq!['+'] + chars::decimal(n)) == chars::read_u64(chars::decimal(n)),
        chars::read_u64(seq!['-'] + chars::decimal(n)) is None,
        chars::read_u64(Seq::empty()) is None,
        chars::read_u64(seq!['+']) is None,
{
    let d = chars::decimal(n);
    chars::lemma_decimal_digits(n);
    assert(chars::is_digit(d[0]));
    assert((seq!['+'] + d).drop_first() =~= d);
    assert(!chars::is_digit((seq!['-'] + d)[0]));
    assert(seq!['+'].drop_first() =~= Seq::<char>::empty());
}

/// The texts of two runs are joined as the runs are, with one separator
/// between them.
pub proof fn law_joined(a: Seq<Seq<char>>, b: Seq<Seq<char>>, sep: Seq<char>, t: Seq<char>)
    ensures
        chars::joined(seq![t], sep) == t,
        chars::joined(Seq::empty(), sep).len() == 0,
        a.len() > 0 && b.len() > 0 ==> chars::joined(a + b, sep) == chars::joined(a, sep) + sep
            + chars::joined(b, sep),
    decreases b.len(),
{
    if a.len() > 0 && b.len() > 0 {
        assert((a + b).drop_last() =~= a + b.drop_last());
        assert((a + b).last() == b.last());
        if b.len() == 1 {
            assert(a + b.drop_last() =~= a);
        } else {
            law_joined(a, b.drop_last(), sep, t);
        }
        assert(chars::joined(a + b, sep) =~= chars::joined(a, sep) + sep + chars::joined(b, sep));
    }
}

/// A text begins and ends with what stands there, and holds what stands in
/// it.
pub proof fn law_where_texts_stand(a: Seq<char>, m: Seq<char>, b: Seq<char>)
    ensures
        chars::begins(m + b, m),
        chars::ends(a + m, m),
        chars::occurs(a + m + b, m),
        forall|s: Seq<char>| #[trigger] chars::begins(s, m) ==> exists|r: Seq<char>| s == #[trigger] (
        m + r),
        forall|s: Seq<char>| #[trigger] chars::ends(s, m) ==> exists|r: Seq<char>| s == #[trigger] (r
            + m),
{
    assert((m + b).subrange(0, m.len() as int) =~= m);
    assert((a + m).subrange(a.len() as int, (a + m).len() as int) =~= m);
    assert((a + m + b).subrange(a.len() as int, (a.len() + m.len()) as int) =~= m);
    assert(chars::stands_at(a + m + b, a.len() as int, m));
    assert forall|s: Seq<char>| #[trigger] chars::begins(s, m) implies exists|r: Seq<char>|
        s == #[trigger] (m + r) by {
        let r = s.skip(m.len() as int);
        assert(s =~= s.subrange(0, m.len() as int) + r);
        assert(s == m + r);
    }
    assert forall|s: Seq<char>| #[trigger] chars::ends(s, m) implies exists|r: Seq<char>|
        s == #[trigger] (r + m) by {
        let r = s.take(s.len() - m.len());
        assert(s =~= r + s.subrange(s.len() - m.len(), s.len() as int));
        assert(s == r + m);
    }
}

} // verus!
