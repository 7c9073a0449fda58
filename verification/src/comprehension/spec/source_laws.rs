//! How clauses and their sources are read.
use super::parse;
use super::source_parser;
use crate::chars;
use crate::comprehension::ast_legacy::{ClauseSourceV, ClauseV};
use crate::comprehension::ir::comparison_laws;
use crate::comprehension::ir::comparison_laws::{int_text, list_text};
use crate::comprehension::ir::condition;
use crate::comprehension::ir::condition_laws;
use crate::comprehension::ir::condition_laws::{in_braces, is_name, plain, unmarked};
use crate::comprehension::source::{LiteralV, SourceV};
use vstd::prelude::*;

verus! {

// ---------------------------------------------------------------------
// Sources
// ---------------------------------------------------------------------

/// A written number has no point, no blank and no bracket, and reads back.
proof fn lemma_number(x: i64)
    ensures
        int_text(x as int).len() > 0,
        forall|i: int|
            0 <= i < int_text(x as int).len() ==> (#[trigger] int_text(x as int)[i]) != '.' && unmarked(
                int_text(x as int)[i],
            ),
        chars::trim(int_text(x as int)) == int_text(x as int),
        chars::read_i64(int_text(x as int)) == Some(x),
{
    let s = int_text(x as int);
    comparison_laws::lemma_int_literal(x);
    condition_laws::lemma_side(s);
    let m = if x < 0 {
        (-(x as int)) as nat
    } else {
        x as nat
    };
    let d = chars::decimal(m);
    chars::lemma_decimal_digits(m);
    assert forall|i: int| 0 <= i < s.len() implies (#[trigger] s[i]) != '.' && unmarked(s[i]) by {
        if x < 0 {
            if i > 0 {
                assert(s[i] == d[i - 1]);
                assert(chars::is_digit(d[i - 1]));
            }
        } else {
            assert(chars::is_digit(d[i]));
        }
    }
    assert(chars::is_digit(d[0]));
    if x < 0 {
        assert(s.drop_first() =~= d);
    }
}

proof fn lemma_dots_at(s: Seq<char>, from: int, at: int)
    requires
        0 <= from <= at,
        at + 1 < s.len(),
        s[at] == '.' && s[at + 1] == '.',
        forall|i: int| from <= i < at ==> #[trigger] s[i] != '.',
    ensures
        source_parser::next_dots(s, from) == Some(at),
    decreases at - from,
{
    if from < at {
        assert(s[from] != '.');
        lemma_dots_at(s, from + 1, at);
    }
}

proof fn lemma_no_dots(s: Seq<char>, from: int)
    requires
        0 <= from,
        forall|i: int| from <= i < s.len() ==> #[trigger] s[i] != '.',
    ensures
        source_parser::next_dots(s, from) is None,
    decreases s.len() - from,
{
    if from + 1 < s.len() {
        assert(s[from] != '.');
        lemma_no_dots(s, from + 1);
    }
}

/// A text that begins and ends with what is no white space is trimmed.
proof fn lemma_trimmed(s: Seq<char>)
    requires
        s.len() > 0,
        !chars::is_space(s[0]),
        !chars::is_space(s.last()),
    ensures
        chars::trim(s) == s,
{
}

/// Two written numbers with two points between them are the range from the
/// one to the other, in steps of one.
pub proof fn law_range_reads(lo: i64, hi: i64)
    ensures
        source_parser::source_of(int_text(lo as int) + ".."@ + int_text(hi as int)) == Some(
            SourceV::IntRange(lo, hi, 1i64),
        ),
{
    reveal_strlit("..");
    let a = int_text(lo as int);
    let b = int_text(hi as int);
    let s = a + ".."@ + b;
    lemma_number(lo);
    lemma_number(hi);
    let at = a.len() as int;
    assert(s[0] == a[0]);
    assert(s.last() == b.last());
    assert(unmarked(a[0]));
    assert(unmarked(b[b.len() - 1]));
    lemma_trimmed(s);
    assert(condition::braced_name(s) is None);
    assert forall|i: int| 0 <= i < at implies #[trigger] s[i] != '.' by {
        assert(s[i] == a[i]);
    }
    lemma_dots_at(s, 0, at);
    assert forall|i: int| at + 2 <= i < s.len() implies #[trigger] s[i] != '.' by {
        assert(s[i] == b[i - (at + 2)]);
    }
    lemma_no_dots(s, at + 2);
    assert(s.subrange(0, at) =~= a);
    assert(s.subrange(at + 2, s.len() as int) =~= b);
}

/// Three written numbers with two points between each two are the range
/// from the first to the second, in steps of the third.
pub proof fn law_stepped_range_reads(lo: i64, hi: i64, step: i64)
    ensures
        source_parser::source_of(
            int_text(lo as int) + ".."@ + int_text(hi as int) + ".."@ + int_text(step as int),
        ) == Some(SourceV::IntRange(lo, hi, step)),
{
    reveal_strlit("..");
    let a = int_text(lo as int);
    let b = int_text(hi as int);
    let c = int_text(step as int);
    let s = a + ".."@ + b + ".."@ + c;
    lemma_number(lo);
    lemma_number(hi);
    lemma_number(step);
    let at = a.len() as int;
    let next = at + 2 + b.len() as int;
    assert(s[0] == a[0]);
    assert(s.last() == c.last());
    assert(unmarked(a[0]));
    assert(unmarked(c[c.len() - 1]));
    lemma_trimmed(s);
    assert(condition::braced_name(s) is None);
    assert forall|i: int| 0 <= i < at implies #[trigger] s[i] != '.' by {
        assert(s[i] == a[i]);
    }
    lemma_dots_at(s, 0, at);
    assert forall|i: int| at + 2 <= i < next implies #[trigger] s[i] != '.' by {
        assert(s[i] == b[i - (at + 2)]);
    }
    lemma_dots_at(s, at + 2, next);
    assert(s.subrange(0, at) =~= a);
    assert(s.subrange(at + 2, next) =~= b);
    assert(s.subrange(next + 2, s.len() as int) =~= c);
}

/// A name in braces is the list of that parameter.
pub proof fn law_parameter_reads(n: Seq<char>)
    requires
        is_name(n),
    ensures
        source_parser::source_of(in_braces(n)) == Some(SourceV::WorkloadParamList(n, None)),
{
    condition_laws::lemma_braced(n);
    condition_laws::lemma_side(in_braces(n));
}

proof fn lemma_literals_first(p: Seq<char>, rest: Seq<Seq<char>>)
    requires
        condition::literal_of(p) is Some,
        source_parser::literals_of(rest) is Some,
    ensures
        source_parser::literals_of(seq![p] + rest) == Some(
            seq![condition::literal_of(p)->0] + source_parser::literals_of(rest)->0,
        ),
    decreases rest.len(),
{
    let all = seq![p] + rest;
    if rest.len() == 0 {
        assert(all.drop_last() =~= Seq::<Seq<char>>::empty());
        assert(all.last() == p);
        assert(source_parser::literals_of(all.drop_last()) == Some(Seq::<LiteralV>::empty()));
        assert(Seq::<LiteralV>::empty().push(condition::literal_of(p)->0) =~= seq![
            condition::literal_of(p)->0,
        ] + source_parser::literals_of(rest)->0);
    } else {
        lemma_literals_first(p, rest.drop_last());
        assert(all.drop_last() =~= seq![p] + rest.drop_last());
        assert(all.last() == rest.last());
        let one = seq![condition::literal_of(p)->0];
        let more = source_parser::literals_of(rest.drop_last())->0;
        assert((one + more).push(condition::literal_of(rest.last())->0) =~= one + more.push(
            condition::literal_of(rest.last())->0,
        ));
    }
}

/// The literals of numbers.
pub open spec fn int_literals(xs: Seq<i64>) -> Seq<LiteralV> {
    Seq::new(xs.len(), |i: int| LiteralV::Int(xs[i]))
}

/// A number, perhaps behind a space, is the literal of that number.
proof fn lemma_spaced_literal(w: Seq<char>, x: i64)
    requires
        w == Seq::<char>::empty() || w == seq![' '],
    ensures
        condition::literal_of(w + int_text(x as int)) == Some(LiteralV::Int(x)),
{
    let a = int_text(x as int);
    let s = w + a;
    comparison_laws::lemma_int_literal(x);
    condition_laws::lemma_side(a);
    if w.len() == 0 {
        assert(s =~= a);
    } else {
        assert(s.drop_first() =~= a);
        assert(chars::trim(s) == chars::trim(a));
    }
}

proof fn lemma_list_literals(w: Seq<char>, xs: Seq<i64>)
    requires
        w == Seq::<char>::empty() || w == seq![' '],
        xs.len() > 0,
    ensures
        source_parser::literals_of(condition::comma_pieces(w + list_text(xs), 0)) == Some(
            int_literals(xs),
        ),
    decreases xs.len(),
{
    let head = w + int_text(xs[0] as int);
    let s = w + list_text(xs);
    lemma_spaced_literal(w, xs[0]);
    if xs.len() == 1 {
        assert(s =~= head);
        comparison_laws::lemma_no_comma(xs[0]);
        assert forall|i: int| 0 <= i < s.len() implies s[i] != ',' by {
            if i >= w.len() {
                assert(s[i] == int_text(xs[0] as int)[i - w.len()]);
            }
        }
        comparison_laws::lemma_comma_at(s, 0, s.len() as int);
        assert(s.subrange(0, s.len() as int) =~= s);
        let none = Seq::<Seq<char>>::empty();
        assert(condition::comma_pieces(s, 0) =~= seq![head] + none);
        lemma_literals_first(head, none);
        assert(int_literals(xs) =~= seq![LiteralV::Int(xs[0])] + Seq::<LiteralV>::empty());
    } else {
        let rest = xs.drop_first();
        comparison_laws::lemma_list_step(w, xs);
        lemma_list_literals(seq![' '], rest);
        lemma_literals_first(
            head,
            condition::comma_pieces(seq![' '] + list_text(rest), 0),
        );
        assert(int_literals(xs) =~= seq![LiteralV::Int(xs[0])] + int_literals(rest));
    }
}

proof fn lemma_list_chars(xs: Seq<i64>)
    requires
        xs.len() > 0,
    ensures
        list_text(xs).len() > 0,
        forall|i: int| 0 <= i < list_text(xs).len() ==> (#[trigger] list_text(xs)[i]) != '.',
        !chars::is_space(list_text(xs)[0]),
    decreases xs.len(),
{
    let a = int_text(xs[0] as int);
    lemma_number(xs[0]);
    let s = list_text(xs);
    assert(s[0] == a[0]);
    assert(unmarked(a[0]));
    if xs.len() > 1 {
        let rest = list_text(xs.drop_first());
        lemma_list_chars(xs.drop_first());
        reveal_strlit(", ");
        assert forall|i: int| 0 <= i < s.len() implies (#[trigger] s[i]) != '.' by {
            if i < a.len() {
                assert(s[i] == a[i]);
            } else if i >= a.len() + 2 {
                assert(s[i] == rest[i - (a.len() + 2)]);
            }
        }
    }
}

/// Numbers in square brackets, with commas between them, are those values
/// in their order.
pub proof fn law_list_reads(xs: Seq<i64>)
    ensures
        source_parser::source_of("["@ + list_text(xs) + "]"@) == Some(
            SourceV::Literal(int_literals(xs)),
        ),
{
    reveal_strlit("[");
    reveal_strlit("]");
    let inner = list_text(xs);
    let s = "["@ + inner + "]"@;
    assert(s[0] == '[' && s.last() == ']');
    lemma_trimmed(s);
    assert(condition::braced_name(s) is None);
    assert(s.subrange(1, s.len() - 1) =~= inner);
    if xs.len() > 0 {
        lemma_list_chars(xs);
    }
    assert forall|i: int| 0 <= i < s.len() implies #[trigger] s[i] != '.' by {
        if 0 < i < s.len() - 1 {
            assert(s[i] == inner[i - 1]);
        }
    }
    lemma_no_dots(s, 0);
    if xs.len() > 0 {
        lemma_list_literals(Seq::empty(), xs);
        assert(Seq::<char>::empty() + inner =~= inner);
        chars::lemma_trim_end_first(inner);
    } else {
        assert(int_literals(xs) =~= Seq::<LiteralV>::empty());
    }
}

// ---------------------------------------------------------------------
// Clauses
// ---------------------------------------------------------------------

/// Whether an expression can stand in a clause without being cut: there is
/// no white space around it, no comma in it, and its brackets are closed.
pub open spec fn uncut(e: Seq<char>) -> bool {
    &&& e.len() > 0
    &&& chars::trim(e) == e
    &&& condition::level(e, e.len() as int) == 0
    &&& forall|i: int| 0 <= i < e.len() ==> #[trigger] e[i] != ','
}

/// Whether a name can stand in front of `in`.
pub open spec fn nameable(v: Seq<char>) -> bool {
    plain(v) && forall|i: int| 0 <= i < v.len() ==> #[trigger] v[i] != ','
}

/// A clause of one name as it is written.
pub open spec fn single_text(v: Seq<char>, e: Seq<char>) -> Seq<char> {
    v + " in "@ + e
}

proof fn lemma_in_cut(v: Seq<char>, e: Seq<char>, from: int)
    requires
        plain(v),
        0 <= from <= v.len(),
    ensures
        condition::next_cut(single_text(v, e), " in "@, from) == Some(v.len() as int),
    decreases v.len() - from,
{
    reveal_strlit(" in ");
    let s = single_text(v, e);
    let at = v.len() as int;
    if from < at {
        assert(s[from] == v[from]);
        assert(unmarked(v[from]));
        if chars::stands_at(s, from, " in "@) {
            assert(s.subrange(from, from + 4)[0] == s[from]);
        }
        lemma_in_cut(v, e, from + 1);
    } else {
        assert(s.subrange(at, at + 4) =~= " in "@);
        assert forall|k: int| 0 <= k < at + 1 implies condition::level_step(#[trigger] s[k]) == 0 by {
            if k < at {
                assert(s[k] == v[k]);
                assert(unmarked(v[k]));
            }
        }
        condition::lemma_level_flat(s, 0, at + 1);
        assert(condition::level(s, 0) == 0);
    }
}

/// A name, `in` and an expression are the clause of that name over that
/// expression.
pub proof fn law_clause_reads(v: Seq<char>, e: Seq<char>)
    requires
        nameable(v),
        e.len() > 0,
        chars::trim(e) == e,
    ensures
        parse::clause_of(single_text(v, e)) == Some(
            ClauseV { vars: seq![v], source: ClauseSourceV::Single(e) },
        ),
{
    reveal_strlit(" in ");
    reveal_strlit("");
    reveal_strlit("(");
    let s = single_text(v, e);
    let at = v.len() as int;
    lemma_in_cut(v, e, 0);
    condition_laws::lemma_side(v);
    assert(s.subrange(0, at) =~= v);
    assert(s.subrange(at + 4, s.len() as int) =~= e);
    assert(unmarked(v[0]));
    assert(""@ + "("@ =~= seq!['(']);
    if chars::begins(v, ""@ + "("@) {
        assert(v.subrange(0, 1)[0] == v[0]);
    }
}

/// The levels behind a text whose brackets are closed.
proof fn lemma_level_behind(a: Seq<char>, b: Seq<char>, n: int)
    requires
        condition::level(a, a.len() as int) == 0,
        0 <= n <= b.len(),
    ensures
        condition::level(a + b, a.len() + n) == condition::level(b, n),
    decreases n,
{
    if n == 0 {
        condition_laws::lemma_level_prefix(a, b, a.len() as int);
    } else {
        lemma_level_behind(a, b, n - 1);
        assert((a + b)[a.len() + n - 1] == b[n - 1]);
    }
}

proof fn lemma_cut_behind(a: Seq<char>, b: Seq<char>, sep: Seq<char>, from: int)
    requires
        condition::level(a, a.len() as int) == 0,
        0 <= from <= b.len(),
        sep.len() > 0,
    ensures
        condition::next_cut(a + b, sep, a.len() + from) == match condition::next_cut(b, sep, from) {
            Some(i) => Some(a.len() + i),
            None => None,
        },
    decreases b.len() - from,
{
    let s = a + b;
    if from < b.len() {
        lemma_level_behind(a, b, from + 1);
        if from + sep.len() <= b.len() {
            assert(s.subrange(a.len() + from, a.len() + from + sep.len()) =~= b.subrange(
                from,
                from + sep.len(),
            ));
        }
        assert(condition::cut_at(s, sep, a.len() + from) == condition::cut_at(b, sep, from));
        lemma_cut_behind(a, b, sep, from + 1);
    }
}

/// The pieces behind a text whose brackets are closed are those of the rest.
proof fn lemma_pieces_after(a: Seq<char>, b: Seq<char>, sep: Seq<char>, from: int)
    requires
        condition::level(a, a.len() as int) == 0,
        0 <= from <= b.len(),
        sep.len() > 0,
    ensures
        condition::pieces(a + b, sep, a.len() + from) == condition::pieces(b, sep, from),
    decreases b.len() - from,
{
    let s = a + b;
    lemma_cut_behind(a, b, sep, from);
    condition::lemma_next_cut(b, sep, from);
    match condition::next_cut(b, sep, from) {
        Some(i) => {
            assert(s.subrange(a.len() + from, a.len() + i) =~= b.subrange(from, i));
            lemma_pieces_after(a, b, sep, i + sep.len());
        },
        None => {
            assert(s.subrange(a.len() + from, s.len() as int) =~= b.subrange(
                from,
                b.len() as int,
            ));
        },
    }
}

proof fn lemma_comma_cut(s: Seq<char>, from: int, at: int)
    requires
        0 <= from <= at < s.len(),
        condition::level(s, at + 1) == 0,
        s[at] == ',',
        forall|i: int| from <= i < at ==> #[trigger] s[i] != ',',
    ensures
        condition::next_cut(s, ","@, from) == Some(at),
    decreases at - from,
{
    reveal_strlit(",");
    if from < at {
        if chars::stands_at(s, from, ","@) {
            assert(s.subrange(from, from + 1)[0] == s[from]);
        }
        assert(s[from] != ',');
        lemma_comma_cut(s, from + 1, at);
    } else {
        assert(s.subrange(at, at + 1) =~= ","@);
    }
}

proof fn lemma_no_comma_cut(s: Seq<char>, from: int)
    requires
        0 <= from,
        forall|i: int| 0 <= i < s.len() ==> #[trigger] s[i] != ',',
    ensures
        condition::next_cut(s, ","@, from) is None,
    decreases s.len() - from,
{
    reveal_strlit(",");
    if from < s.len() {
        if chars::stands_at(s, from, ","@) {
            assert(s.subrange(from, from + 1)[0] == s[from]);
        }
        lemma_no_comma_cut(s, from + 1);
    }
}

/// Clauses of one name, as they are written one after the other.
pub open spec fn clauses_text(cs: Seq<(Seq<char>, Seq<char>)>) -> Seq<char>
    decreases cs.len(),
{
    if cs.len() == 0 {
        Seq::empty()
    } else if cs.len() == 1 {
        single_text(cs[0].0, cs[0].1)
    } else {
        single_text(cs[0].0, cs[0].1) + ", "@ + clauses_text(cs.drop_first())
    }
}

/// Whether every clause of a run can be written so.
pub open spec fn all_written(cs: Seq<(Seq<char>, Seq<char>)>) -> bool {
    forall|i: int| 0 <= i < cs.len() ==> nameable((#[trigger] cs[i]).0) && uncut(cs[i].1)
}

/// What a written clause is like.
proof fn lemma_single(v: Seq<char>, e: Seq<char>)
    requires
        nameable(v),
        uncut(e),
    ensures
        uncut(single_text(v, e)),
{
    reveal_strlit(" in ");
    let s = single_text(v, e);
    condition_laws::lemma_side(v);
    comparison_laws::lemma_trimmed_ends(e);
    assert(s[0] == v[0]);
    assert(s.last() == e.last());
    lemma_trimmed(s);
    assert forall|i: int| 0 <= i < s.len() implies #[trigger] s[i] != ',' by {
        if i < v.len() {
            assert(s[i] == v[i]);
        } else if i >= v.len() + 4 {
            assert(s[i] == e[i - (v.len() + 4)]);
        }
    }
    let head = v + " in "@;
    assert forall|k: int| 0 <= k < head.len() implies condition::level_step(#[trigger] head[k])
        == 0 by {
        if k < v.len() {
            assert(head[k] == v[k]);
            assert(unmarked(v[k]));
        }
    }
    condition::lemma_level_flat(head, 0, head.len() as int);
    assert(condition::level(head, 0) == 0);
    lemma_level_behind(head, e, e.len() as int);
    assert(s == head + e);
}

/// White space in front of a text that is not cut does not matter.
proof fn lemma_spaced_text(w: Seq<char>, one: Seq<char>)
    requires
        w == Seq::<char>::empty() || w == seq![' '],
        uncut(one),
    ensures
        chars::trim(w + one) == one,
        forall|i: int| 0 <= i < (w + one).len() ==> #[trigger] (w + one)[i] != ',',
{
    let head = w + one;
    if w.len() == 0 {
        assert(head =~= one);
    } else {
        assert(head.drop_first() =~= one);
        assert(chars::trim(head) == chars::trim(one));
    }
    assert forall|i: int| 0 <= i < head.len() implies #[trigger] head[i] != ',' by {
        if i >= w.len() {
            assert(head[i] == one[i - w.len()]);
        }
    }
}

/// A text that is not cut is one piece.
pub(crate) proof fn lemma_last_piece(w: Seq<char>, one: Seq<char>)
    requires
        w == Seq::<char>::empty() || w == seq![' '],
        uncut(one),
    ensures
        condition::pieces(w + one, ","@, 0) == seq![one],
{
    let s = w + one;
    lemma_spaced_text(w, one);
    lemma_no_comma_cut(s, 0);
    assert(s.subrange(0, s.len() as int) =~= s);
}

/// A text that is not cut is the first piece, where a comma follows it.
pub(crate) proof fn lemma_first_piece(w: Seq<char>, one: Seq<char>, more: Seq<char>)
    requires
        w == Seq::<char>::empty() || w == seq![' '],
        uncut(one),
    ensures
        condition::pieces(w + one + ", "@ + more, ","@, 0) == seq![one] + condition::pieces(
            seq![' '] + more,
            ","@,
            0,
        ),
{
    reveal_strlit(",");
    reveal_strlit(", ");
    let s = w + one + ", "@ + more;
    let head = w + one;
    lemma_spaced_text(w, one);
    let tail = seq![' '] + more;
    let front = head + seq![','];
    assert(s =~= front + tail);
    let at = head.len() as int;
    lemma_head_level(w, one);
    condition_laws::lemma_level_prefix(head, seq![','] + tail, at);
    assert(s =~= head + (seq![','] + tail));
    assert(s[at] == ',');
    assert(condition::level(s, at + 1) == condition::level(s, at) + condition::level_step(s[at]));
    assert forall|i: int| 0 <= i < at implies #[trigger] s[i] != ',' by {
        assert(s[i] == head[i]);
    }
    lemma_comma_cut(s, 0, at);
    assert(s.subrange(0, at) =~= head);
    condition_laws::lemma_level_prefix(head, seq![','], at);
    assert(condition::level(front, at + 1) == condition::level(front, at) + condition::level_step(
        front[at],
    ));
    lemma_pieces_after(front, tail, ","@, 0);
}

/// The pieces of clauses one after the other are the clauses.
proof fn lemma_clause_pieces(w: Seq<char>, cs: Seq<(Seq<char>, Seq<char>)>)
    requires
        w == Seq::<char>::empty() || w == seq![' '],
        cs.len() > 0,
        all_written(cs),
    ensures
        condition::pieces(w + clauses_text(cs), ","@, 0) == Seq::new(
            cs.len(),
            |i: int| single_text(cs[i].0, cs[i].1),
        ),
    decreases cs.len(),
{
    let one = single_text(cs[0].0, cs[0].1);
    assert(nameable(cs[0].0) && uncut(cs[0].1));
    lemma_single(cs[0].0, cs[0].1);
    let want = Seq::new(cs.len(), |i: int| single_text(cs[i].0, cs[i].1));
    if cs.len() == 1 {
        lemma_last_piece(w, one);
        assert(seq![one] =~= want);
    } else {
        let rest = cs.drop_first();
        assert forall|i: int| 0 <= i < rest.len() implies nameable((#[trigger] rest[i]).0) && uncut(
            rest[i].1,
        ) by {
            assert(rest[i] == cs[i + 1]);
        }
        lemma_clause_pieces(seq![' '], rest);
        lemma_first_piece(w, one, clauses_text(rest));
        assert(w + clauses_text(cs) =~= w + one + ", "@ + clauses_text(rest));
        let more = condition::pieces(seq![' '] + clauses_text(rest), ","@, 0);
        assert(seq![one] + more =~= want) by {
            assert forall|i: int| 0 <= i < want.len() implies (seq![one] + more)[i] == want[i] by {
                if i > 0 {
                    assert(rest[i - 1] == cs[i]);
                }
            }
        }
    }
}

proof fn lemma_head_level(w: Seq<char>, one: Seq<char>)
    requires
        w == Seq::<char>::empty() || w == seq![' '],
        condition::level(one, one.len() as int) == 0,
    ensures
        condition::level(w + one, (w + one).len() as int) == 0,
{
    if w.len() == 0 {
        assert(w + one =~= one);
    } else {
        assert(condition::level(w, 0) == 0);
        assert(condition::level(w, 1) == condition::level(w, 0) + condition::level_step(w[0]));
        lemma_level_behind(w, one, one.len() as int);
    }
}

proof fn lemma_runs(cs: Seq<(Seq<char>, Seq<char>)>)
    requires
        all_written(cs),
    ensures
        ({
            let texts = Seq::new(cs.len(), |i: int| single_text(cs[i].0, cs[i].1));
            let want = Seq::new(
                cs.len(),
                |i: int| ClauseV { vars: seq![cs[i].0], source: ClauseSourceV::Single(cs[i].1) },
            );
            &&& parse::clause_runs(texts) == Some(texts)
            &&& parse::clauses_of_runs(texts) == Some(want)
        }),
    decreases cs.len(),
{
    let texts = Seq::new(cs.len(), |i: int| single_text(cs[i].0, cs[i].1));
    let want = Seq::new(
        cs.len(),
        |i: int| ClauseV { vars: seq![cs[i].0], source: ClauseSourceV::Single(cs[i].1) },
    );
    if cs.len() == 0 {
        assert(texts =~= Seq::<Seq<char>>::empty());
        assert(want =~= Seq::<ClauseV>::empty());
    } else {
        let front = cs.drop_last();
        assert forall|i: int| 0 <= i < front.len() implies nameable((#[trigger] front[i]).0)
            && uncut(front[i].1) by {
            assert(front[i] == cs[i]);
        }
        lemma_runs(front);
        let before = Seq::new(front.len(), |i: int| single_text(front[i].0, front[i].1));
        let had = Seq::new(
            front.len(),
            |i: int|
                ClauseV { vars: seq![front[i].0], source: ClauseSourceV::Single(front[i].1) },
        );
        assert(texts.drop_last() =~= before);
        let n = cs.len() - 1;
        assert(nameable(cs[n].0) && uncut(cs[n].1));
        lemma_in_cut(cs[n].0, cs[n].1, 0);
        law_clause_reads(cs[n].0, cs[n].1);
        assert(before.push(texts.last()) =~= texts);
        assert(had.push(want.last()) =~= want);
    }
}

/// Clauses that are written with commas between them are read one after the
/// other.
pub proof fn law_clauses_read(cs: Seq<(Seq<char>, Seq<char>)>)
    requires
        cs.len() > 0,
        all_written(cs),
    ensures
        parse::clauses_of(clauses_text(cs)) == Some(
            Seq::new(
                cs.len(),
                |i: int| ClauseV { vars: seq![cs[i].0], source: ClauseSourceV::Single(cs[i].1) },
            ),
        ),
{
    lemma_clause_pieces(Seq::empty(), cs);
    assert(Seq::<char>::empty() + clauses_text(cs) =~= clauses_text(cs));
    lemma_runs(cs);
}

} // verus!
