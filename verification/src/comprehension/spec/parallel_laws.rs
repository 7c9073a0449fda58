//! How clauses of several names are read.
use super::parse;
use super::source_laws;
use super::source_laws::{nameable, uncut};
use crate::chars;
use crate::comprehension::ast_legacy;
use crate::comprehension::ast_legacy::{ClauseSourceV, ClauseV, ZipMode};
use crate::comprehension::ir::comparison_laws;
use crate::comprehension::ir::condition;
use crate::comprehension::ir::condition_laws;
use crate::comprehension::ir::condition_laws::unmarked;
use vstd::prelude::*;

verus! {

/// Texts with a comma and a space between each two.
pub open spec fn row_text(ts: Seq<Seq<char>>) -> Seq<char>
    decreases ts.len(),
{
    if ts.len() == 0 {
        Seq::empty()
    } else if ts.len() == 1 {
        ts[0]
    } else {
        ts[0] + ", "@ + row_text(ts.drop_first())
    }
}

proof fn lemma_row_push(ts: Seq<Seq<char>>, x: Seq<char>)
    requires
        ts.len() > 0,
    ensures
        row_text(ts.push(x)) == row_text(ts) + ", "@ + x,
    decreases ts.len(),
{
    let all = ts.push(x);
    if ts.len() == 1 {
        assert(all.drop_first() =~= seq![x]);
        assert(row_text(all.drop_first()) == x);
    } else {
        lemma_row_push(ts.drop_first(), x);
        assert(all.drop_first() =~= ts.drop_first().push(x));
        assert(ts[0] + ", "@ + (row_text(ts.drop_first()) + ", "@ + x) =~= (ts[0] + ", "@
            + row_text(ts.drop_first())) + ", "@ + x);
    }
}

proof fn lemma_joined_row(ts: Seq<Seq<char>>)
    ensures
        chars::joined(ts, ", "@) == row_text(ts),
    decreases ts.len(),
{
    if ts.len() > 1 {
        lemma_joined_row(ts.drop_last());
        lemma_row_push(ts.drop_last(), ts.last());
        assert(ts.drop_last().push(ts.last()) =~= ts);
    }
}

/// The pieces of texts that are not cut themselves are the texts.
proof fn lemma_row_pieces(w: Seq<char>, ts: Seq<Seq<char>>)
    requires
        w == Seq::<char>::empty() || w == seq![' '],
        ts.len() > 0,
        forall|i: int| 0 <= i < ts.len() ==> uncut(#[trigger] ts[i]),
    ensures
        condition::pieces(w + row_text(ts), ","@, 0) == ts,
    decreases ts.len(),
{
    let cs = ts;
    let one = ts[0];
    assert(uncut(ts[0]));
    if ts.len() == 1 {
        source_laws::lemma_last_piece(w, one);
        assert(seq![one] =~= ts);
    } else {
        let rest = ts.drop_first();
        assert forall|i: int| 0 <= i < rest.len() implies uncut(#[trigger] rest[i]) by {
            assert(rest[i] == ts[i + 1]);
        }
        lemma_row_pieces(seq![' '], rest);
        source_laws::lemma_first_piece(w, one, row_text(rest));
        assert(w + row_text(ts) =~= w + one + ", "@ + row_text(rest));
        assert(seq![one] + rest =~= ts);
    }
}

/// The texts between commas, without the white space around them.
proof fn lemma_row_commas(w: Seq<char>, ts: Seq<Seq<char>>)
    requires
        w == Seq::<char>::empty() || w == seq![' '],
        ts.len() > 0,
        forall|i: int| 0 <= i < ts.len() ==> nameable(#[trigger] ts[i]),
    ensures
        parse::trimmed(condition::comma_pieces(w + row_text(ts), 0)) == ts,
    decreases ts.len(),
{
    reveal_strlit(", ");
    let one = ts[0];
    assert(nameable(ts[0]));
    condition_laws::lemma_side(one);
    let head = w + one;
    let s = w + row_text(ts);
    assert(chars::trim(head) == one) by {
        if w.len() == 0 {
            assert(head =~= one);
        } else {
            assert(head.drop_first() =~= one);
            assert(chars::trim(head) == chars::trim(one));
        }
    }
    assert forall|i: int| 0 <= i < head.len() implies #[trigger] head[i] != ',' by {
        if i >= w.len() {
            assert(head[i] == one[i - w.len()]);
        }
    }
    if ts.len() == 1 {
        assert(s =~= head);
        comparison_laws::lemma_comma_at(s, 0, s.len() as int);
        assert(s.subrange(0, s.len() as int) =~= s);
        assert(condition::comma_pieces(s, 0) =~= seq![head]);
        assert(parse::trimmed(seq![head]) =~= ts);
    } else {
        let rest = ts.drop_first();
        assert forall|i: int| 0 <= i < rest.len() implies nameable(#[trigger] rest[i]) by {
            assert(rest[i] == ts[i + 1]);
        }
        lemma_row_commas(seq![' '], rest);
        let tail = seq![' '] + row_text(rest);
        let front = head + seq![','];
        assert(s =~= front + tail);
        let e = head.len() as int;
        assert forall|i: int| 0 <= i < e implies s[i] != ',' by {
            assert(s[i] == head[i]);
        }
        comparison_laws::lemma_comma_at(s, 0, e);
        assert(s.subrange(0, e) =~= head);
        comparison_laws::lemma_pieces_behind(front, tail, 0);
        let more = condition::comma_pieces(tail, 0);
        assert(condition::comma_pieces(s, 0) == seq![head] + more);
        assert(parse::trimmed(seq![head] + more) =~= seq![one] + parse::trimmed(more));
        assert(seq![one] + rest =~= ts);
    }
}

/// Names with commas between them have no brackets.
proof fn lemma_row_flat(ts: Seq<Seq<char>>)
    requires
        ts.len() > 0,
        forall|i: int| 0 <= i < ts.len() ==> nameable(#[trigger] ts[i]),
    ensures
        forall|i: int|
            0 <= i < row_text(ts).len() ==> condition::level_step(#[trigger] row_text(ts)[i]) == 0,
    decreases ts.len(),
{
    reveal_strlit(", ");
    let one = ts[0];
    assert(nameable(ts[0]));
    let s = row_text(ts);
    assert forall|i: int| 0 <= i < one.len() implies condition::level_step(#[trigger] one[i]) == 0 by {
        assert(unmarked(one[i]));
    }
    if ts.len() > 1 {
        let rest = ts.drop_first();
        assert forall|i: int| 0 <= i < rest.len() implies nameable(#[trigger] rest[i]) by {
            assert(rest[i] == ts[i + 1]);
        }
        lemma_row_flat(rest);
        let tail = row_text(rest);
        assert forall|i: int| 0 <= i < s.len() implies condition::level_step(#[trigger] s[i]) == 0 by {
            if i < one.len() {
                assert(s[i] == one[i]);
            } else if i >= one.len() + 2 {
                assert(s[i] == tail[i - (one.len() + 2)]);
            }
        }
    }
}

/// Where `in` stands behind names in round brackets.
proof fn lemma_in_behind(v: Seq<char>, r: Seq<char>, from: int)
    requires
        forall|i: int| 0 <= i < v.len() ==> condition::level_step(#[trigger] v[i]) == 0,
        0 <= from <= v.len() + 2,
    ensures
        condition::next_cut(seq!['('] + v + seq![')'] + " in "@ + r, " in "@, from) == Some(
            (v.len() + 2) as int,
        ),
    decreases v.len() + 2 - from,
{
    reveal_strlit(" in ");
    let s = seq!['('] + v + seq![')'] + " in "@ + r;
    let at = (v.len() + 2) as int;
    assert(s[0] == '(' && s[at - 1] == ')' && s[at] == ' ');
    assert forall|k: int| 1 <= k < at - 1 implies condition::level_step(#[trigger] s[k]) == 0 by {
        assert(s[k] == v[k - 1]);
    }
    assert(condition::level(s, 0) == 0);
    assert(condition::level(s, 1) == 1);
    if from < at {
        if from < at - 1 {
            if from >= 1 {
                condition::lemma_level_flat(s, 1, from + 1);
            }
            assert(condition::level(s, from + 1) == 1);
        } else if chars::stands_at(s, from, " in "@) {
            assert(s.subrange(from, from + 4)[0] == s[from]);
        }
        lemma_in_behind(v, r, from + 1);
    } else {
        condition::lemma_level_flat(s, 1, at - 1);
        assert(condition::level(s, at) == condition::level(s, at - 1) + condition::level_step(
            s[at - 1],
        ));
        assert(condition::level(s, at + 1) == condition::level(s, at) + condition::level_step(s[at]));
        assert(s.subrange(at, at + 4) =~= " in "@);
    }
}

/// What stands in front of the expressions of a zip.
pub open spec fn zip_head(mode: ZipMode) -> Seq<char> {
    match mode {
        ZipMode::Strict => ""@,
        ZipMode::Truncate => "zip_truncate"@,
        ZipMode::Cycle => "zip_cycle"@,
    }
}

proof fn lemma_call_inside(head: Seq<char>, inner: Seq<char>)
    ensures
        parse::inside_call(head + seq!['('] + inner + seq![')'], head) == Some(inner),
{
    reveal_strlit("(");
    let s = head + seq!['('] + inner + seq![')'];
    assert("("@ =~= seq!['(']);
    assert(s.subrange(0, (head + "("@).len() as int) =~= head + "("@);
    assert(s.subrange(head.len() as int + 1, s.len() - 1) =~= inner);
}

/// The mode and the expressions of a zip as they are written.
proof fn lemma_zip_read(mode: ZipMode, inner: Seq<char>)
    ensures
        parse::parallel_exprs(zip_head(mode) + seq!['('] + inner + seq![')']) == Some(
            (mode, condition::pieces(inner, ","@, 0)),
        ),
{
    reveal_strlit("");
    reveal_strlit("(");
    reveal_strlit("zip_truncate");
    reveal_strlit("zip_cycle");
    let s = zip_head(mode) + seq!['('] + inner + seq![')'];
    lemma_call_inside(zip_head(mode), inner);
    if !(mode is Strict) {
        assert(s[0] == 'z');
        if chars::begins(s, ""@ + "("@) {
            assert((""@ + "("@)[0] == '(');
            assert(s.subrange(0, 1)[0] == s[0]);
        }
    }
    if mode is Cycle {
        assert(s[4] == 'c');
        if chars::begins(s, "zip_truncate"@ + "("@) {
            let t = "zip_truncate"@ + "("@;
            assert(t[4] == 't');
            assert(s.subrange(0, t.len() as int)[4] == s[4]);
        }
    }
}

/// A clause of several names is read back from its text: the names, the
/// mode and the expressions, each in its order.
pub proof fn law_parallel_clause_reads_back(
    vars: Seq<Seq<char>>,
    mode: ZipMode,
    exprs: Seq<Seq<char>>,
)
    requires
        vars.len() == exprs.len(),
        vars.len() >= 2,
        forall|i: int| 0 <= i < vars.len() ==> nameable(#[trigger] vars[i]),
        forall|i: int| 0 <= i < exprs.len() ==> uncut(#[trigger] exprs[i]),
    ensures
        parse::clause_of(
            ast_legacy::clause_text(
                ClauseV { vars, source: ClauseSourceV::Parallel(mode, exprs) },
            ),
        ) == Some(ClauseV { vars, source: ClauseSourceV::Parallel(mode, exprs) }),
{
    reveal_strlit("");
    reveal_strlit("(");
    reveal_strlit(")");
    reveal_strlit(") in ");
    reveal_strlit(" in ");
    reveal_strlit("zip_truncate(");
    reveal_strlit("zip_cycle(");
    reveal_strlit("zip_truncate");
    reveal_strlit("zip_cycle");
    let p = ast_legacy::clause_text(
        ClauseV { vars, source: ClauseSourceV::Parallel(mode, exprs) },
    );
    let v = row_text(vars);
    let e = row_text(exprs);
    lemma_joined_row(vars);
    lemma_joined_row(exprs);
    let r = zip_head(mode) + seq!['('] + e + seq![')'];
    let lhs = seq!['('] + v + seq![')'];
    assert(p =~= lhs + " in "@ + r);
    lemma_row_flat(vars);
    lemma_in_behind(v, r, 0);
    let at = (v.len() + 2) as int;
    assert(p.subrange(0, at) =~= lhs);
    assert(p.subrange(at + 4, p.len() as int) =~= r);
    assert(lhs[0] == '(' && lhs.last() == ')');
    assert(chars::trim(lhs) == lhs);
    assert(r.last() == ')');
    assert(r[0] == '(' || r[0] == 'z');
    assert(chars::trim(r) == r);
    lemma_call_inside(""@, v);
    assert(""@ + seq!['('] + v + seq![')'] =~= lhs);
    lemma_zip_read(mode, e);
    let none = Seq::<char>::empty();
    lemma_row_pieces(none, exprs);
    assert(none + e =~= e);
    lemma_row_commas(none, vars);
    assert(none + v =~= v);
}

} // verus!
