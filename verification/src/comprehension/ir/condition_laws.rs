//! What conditions say, whichever way they are written.
use crate::chars;
use crate::comprehension::ir::condition;
use crate::comprehension::ir::condition::Relation;
use crate::comprehension::tuple::TupleV;
use vstd::prelude::*;

verus! {

/// Whether a character is neither a bracket, nor a part of an operator, nor
/// white space.
pub open spec fn unmarked(c: char) -> bool {
    &&& condition::level_step(c) == 0
    &&& !operative(c)
    &&& !chars::is_space(c)
}

/// Whether a character is a part of an operator.
pub open spec fn operative(c: char) -> bool {
    c == '!' || c == '&' || c == '|' || c == '<' || c == '>' || c == '='
}

/// Whether a text is made of unmarked characters.
pub open spec fn plain(s: Seq<char>) -> bool {
    s.len() > 0 && forall|i: int| 0 <= i < s.len() ==> unmarked(#[trigger] s[i])
}

/// Whether a text is a name that can stand in braces.
pub open spec fn is_name(n: Seq<char>) -> bool {
    plain(n) && forall|i: int|
        0 <= i < n.len() ==> condition::alphanumeric(#[trigger] n[i]) || n[i] == '_'
}

/// A name in braces.
pub open spec fn in_braces(n: Seq<char>) -> Seq<char> {
    seq!['{'] + n + seq!['}']
}

/// A comparison as it is written.
pub open spec fn written(a: Seq<char>, k: Relation, b: Seq<char>) -> Seq<char> {
    a + seq![' '] + condition::operator_text(k) + seq![' '] + b
}

/// Whether a text is a side of a comparison: a plain text or a name in
/// braces.
pub open spec fn is_side(s: Seq<char>) -> bool {
    plain(s) || exists|n: Seq<char>| is_name(n) && s == #[trigger] in_braces(n)
}

/// A condition says the same without the white space around it.
proof fn lemma_trimmed_says(p: Seq<char>, t: TupleV)
    ensures
        condition::holds(chars::trim(p), t) == condition::holds(p, t),
{
    let s = chars::trim(p);
    chars::lemma_trim_twice(p);
    condition::lemma_trim_shorter(p);
    reveal_strlit("&&");
    reveal_strlit("||");
    let both = condition::pieces(s, "&&"@, 0);
    let either = condition::pieces(s, "||"@, 0);
    condition::lemma_pieces_shorter(s, "&&"@, 0);
    condition::lemma_pieces_shorter(s, "||"@, 0);
    if condition::next_cut(s, "&&"@, 0) is Some {
        assert forall|i: int| 0 <= i < both.len() implies (#[trigger] both[i]).len() < s.len() by {
        }
        assert((forall|i: int|
            0 <= i < both.len() ==> (both[i].len() < p.len() && condition::holds(
                #[trigger] both[i],
                t,
            ))) == (forall|i: int|
            0 <= i < both.len() ==> (both[i].len() < s.len() && condition::holds(
                #[trigger] both[i],
                t,
            ))));
    } else if condition::next_cut(s, "||"@, 0) is Some {
        assert forall|i: int| 0 <= i < either.len() implies (#[trigger] either[i]).len()
            < s.len() by {}
        assert((exists|i: int|
            0 <= i < either.len() && either[i].len() < p.len() && condition::holds(
                #[trigger] either[i],
                t,
            )) == (exists|i: int|
            0 <= i < either.len() && either[i].len() < s.len() && condition::holds(
                #[trigger] either[i],
                t,
            )));
    }
}

/// A condition behind `!` says the opposite.
pub proof fn law_negation(p: Seq<char>, t: TupleV)
    ensures
        condition::holds(seq!['!'] + p, t) == !condition::holds(p, t),
{
    let q = seq!['!'] + p;
    let s = chars::trim(q);
    assert(q[0] == '!');
    assert(!chars::is_space('!'));
    chars::lemma_trim_end_first(q);
    assert(s == chars::trim_end(q));
    chars::lemma_trim_end_behind('!', p);
    assert(s.skip(1) =~= chars::trim_end(p));
    assert(chars::lowered(s)[0] == '!');
    reveal_strlit("true");
    reveal_strlit("false");
    assert("true"@[0] == 't' && "false"@[0] == 'f');
    chars::lemma_trim_end_then(p);
    lemma_trimmed_says(p, t);
    assert(condition::holds(q, t) == !condition::holds(chars::trim(s.skip(1)), t));
}

/// A side begins and ends with no white space, has no part of an operator,
/// and its brackets are closed.
pub(crate) proof fn lemma_side(s: Seq<char>)
    requires
        is_side(s),
    ensures
        s.len() > 0,
        !chars::is_space(s[0]),
        !chars::is_space(s.last()),
        s.last() != ']',
        forall|i: int| 0 <= i < s.len() ==> !operative(#[trigger] s[i]),
        condition::level(s, s.len() as int) == 0,
        chars::trim(s) == s,
{
    if plain(s) {
        assert(unmarked(s[0]));
        assert(unmarked(s[s.len() - 1]));
        condition::lemma_level_flat(s, 0, s.len() as int);
        assert(condition::level(s, 0) == 0);
    } else {
        let n = choose|n: Seq<char>| is_name(n) && s == #[trigger] in_braces(n);
        assert(s[0] == '{' && s.last() == '}');
        assert forall|k: int| 1 <= k < s.len() - 1 implies condition::level_step(#[trigger] s[k])
            == 0 && !operative(s[k]) by {
            assert(s[k] == n[k - 1]);
            assert(unmarked(n[k - 1]));
        }
        condition::lemma_level_flat(s, 1, s.len() - 1);
        assert(condition::level(s, 0) == 0);
        assert(condition::level(s, 1) == 1);
        assert(condition::level(s, s.len() as int) == condition::level(s, s.len() - 1)
            + condition::level_step(s[s.len() - 1]));
    }
}

/// The level of a beginning is its level in the whole.
pub(crate) proof fn lemma_level_prefix(a: Seq<char>, b: Seq<char>, n: int)
    requires
        0 <= n <= a.len(),
    ensures
        condition::level(a + b, n) == condition::level(a, n),
    decreases n,
{
    if n > 0 {
        lemma_level_prefix(a, b, n - 1);
        assert((a + b)[n - 1] == a[n - 1]);
    }
}

/// What stands nowhere is not found.
pub(crate) proof fn lemma_no_operator(s: Seq<char>, op: Seq<char>, from: int)
    requires
        0 <= from,
        forall|i: int| 0 <= i < s.len() ==> !chars::stands_at(s, i, op),
    ensures
        condition::next_operator(s, op, from) is None,
        condition::next_cut(s, op, from) is None,
    decreases s.len() - from,
{
    if from < s.len() {
        assert(!chars::stands_at(s, from, op));
        lemma_no_operator(s, op, from + 1);
    }
}

/// What stands at one place is found there.
proof fn lemma_one_operator(s: Seq<char>, op: Seq<char>, from: int, q: int)
    requires
        0 <= from <= q < s.len(),
        condition::operator_at(s, op, q),
        forall|i: int| 0 <= i < q ==> !chars::stands_at(s, i, op),
    ensures
        condition::next_operator(s, op, from) == Some(q),
    decreases q - from,
{
    if from < q {
        assert(!chars::stands_at(s, from, op));
        lemma_one_operator(s, op, from + 1, q);
    }
}

/// Which of the operators stands at a place.
proof fn lemma_operators()
    ensures
        "=="@ =~= seq!['=', '='],
        "!="@ =~= seq!['!', '='],
        "<="@ =~= seq!['<', '='],
        ">="@ =~= seq!['>', '='],
        "<"@ =~= seq!['<'],
        ">"@ =~= seq!['>'],
        "&&"@ =~= seq!['&', '&'],
        "||"@ =~= seq!['|', '|'],
{
    reveal_strlit("==");
    reveal_strlit("!=");
    reveal_strlit("<=");
    reveal_strlit(">=");
    reveal_strlit("<");
    reveal_strlit(">");
    reveal_strlit("&&");
    reveal_strlit("||");
}

/// Where the parts of an operator stand in a comparison.
proof fn lemma_marks(a: Seq<char>, k: Relation, b: Seq<char>)
    requires
        is_side(a),
        is_side(b),
    ensures
        ({
            let s = written(a, k, b);
            let op = condition::operator_text(k);
            let q = a.len() + 1;
            &&& s.len() == a.len() + op.len() + b.len() + 2
            &&& 1 <= op.len() <= 2
            &&& forall|i: int|
                0 <= i < s.len() && !(q <= i < q + op.len()) ==> !operative(#[trigger] s[i])
            &&& forall|i: int| 0 <= i < op.len() ==> s[q + i] == #[trigger] op[i]
            &&& s[a.len() as int] == ' '
            &&& s[(q + op.len()) as int] == ' '
            &&& s[0] == a[0]
            &&& s.last() == b.last()
            &&& chars::trim(s) == s
            &&& condition::level(s, q as int) == 0
        }),
{
    let s = written(a, k, b);
    let op = condition::operator_text(k);
    let q = (a.len() + 1) as int;
    lemma_operators();
    lemma_side(a);
    lemma_side(b);
    assert forall|i: int| 0 <= i < s.len() && !(q <= i < q + op.len()) implies !operative(
        #[trigger] s[i],
    ) by {
        if i < a.len() {
            assert(s[i] == a[i]);
        } else if i >= q + op.len() + 1 {
            assert(s[i] == b[i - (q + op.len() + 1)]);
        }
    }
    lemma_level_prefix(a, seq![' '] + op + seq![' '] + b, a.len() as int);
    assert(s =~= a + (seq![' '] + op + seq![' '] + b));
    assert(condition::level(s, q) == condition::level(s, q - 1) + condition::level_step(s[q - 1]));
}

/// A comparison is found by its own operator and no other before.
proof fn lemma_found(a: Seq<char>, k: Relation, b: Seq<char>)
    requires
        is_side(a),
        is_side(b),
    ensures
        ({
            let s = written(a, k, b);
            &&& condition::next_operator(s, condition::operator_text(k), 0) == Some(
                (a.len() + 1) as int,
            )
            &&& !(k is Eq) ==> condition::next_operator(s, "=="@, 0) is None
            &&& !(k is Eq || k is Ne) ==> condition::next_operator(s, "!="@, 0) is None
            &&& (k is Ge || k is Lt || k is Gt) ==> condition::next_operator(s, "<="@, 0) is None
            &&& (k is Lt || k is Gt) ==> condition::next_operator(s, ">="@, 0) is None
            &&& k is Gt ==> condition::next_operator(s, "<"@, 0) is None
            &&& condition::next_cut(s, "&&"@, 0) is None
            &&& condition::next_cut(s, "||"@, 0) is None
        }),
{
    let s = written(a, k, b);
    let op = condition::operator_text(k);
    let q = (a.len() + 1) as int;
    lemma_marks(a, k, b);
    lemma_operators();
    assert(op[0] == s[q + 0]);
    if op.len() == 2 {
        assert(op[1] == s[q + 1]);
    }
    assert(s.subrange(q, q + op.len()) =~= op);
    assert(condition::level(s, q + 1) == condition::level(s, q) + condition::level_step(s[q]));
    assert(condition::operator_at(s, op, q));
    assert forall|i: int| 0 <= i < q implies !chars::stands_at(s, i, op) by {
        if chars::stands_at(s, i, op) {
            assert(s.subrange(i, i + op.len())[0] == s[i]);
            assert(operative(s[i]));
        }
    }
    lemma_one_operator(s, op, 0, q);
    assert forall|i: int, w: Seq<char>|
        0 <= i < s.len() && w.len() == 2 && operative(w[0]) && operative(w[1])
            && #[trigger] chars::stands_at(s, i, w) implies i == q && op.len() == 2 && w == op by {
        assert(s.subrange(i, i + 2)[0] == s[i]);
        assert(s.subrange(i, i + 2)[1] == s[i + 1]);
        assert(operative(s[i]));
        assert(operative(s[i + 1]));
        assert(w =~= op);
    }
    if !(k is Eq) {
        lemma_no_operator(s, "=="@, 0);
    }
    if !(k is Ne) {
        lemma_no_operator(s, "!="@, 0);
    }
    if !(k is Le) {
        lemma_no_operator(s, "<="@, 0);
    }
    if !(k is Ge) {
        lemma_no_operator(s, ">="@, 0);
    }
    lemma_no_operator(s, "&&"@, 0);
    lemma_no_operator(s, "||"@, 0);
    if k is Gt {
        assert forall|i: int| 0 <= i < s.len() implies !chars::stands_at(s, i, "<"@) by {
            if chars::stands_at(s, i, "<"@) {
                assert(s.subrange(i, i + 1)[0] == s[i]);
                assert(operative(s[i]));
            }
        }
        lemma_no_operator(s, "<"@, 0);
    }
}

/// A comparison of two sides is no membership.
proof fn lemma_no_membership(s: Seq<char>)
    requires
        s.len() > 0,
        !chars::is_space(s.last()),
        s.last() != ']',
    ensures
        condition::membership(s) is None,
{
    match condition::in_place(s, 0) {
        Some(p) => {
            lemma_in_place(s, 0);
            let tail = s.subrange(p + 4, s.len() as int);
            let rhs = chars::trim(tail);
            if tail.len() > 0 {
                chars::lemma_trim_keeps_last(tail);
            } else {
                assert(rhs.len() == 0) by {
                    condition::lemma_trim_shorter(tail);
                }
            }
        },
        None => {},
    }
}

/// Where ` in ` is found.
proof fn lemma_in_place(s: Seq<char>, from: int)
    requires
        0 <= from,
    ensures
        condition::in_place(s, from) matches Some(p) ==> from <= p && p + 4 <= s.len(),
    decreases s.len() - from,
{
    reveal_strlit(" in ");
    if from < s.len() && !chars::stands_at(s, from, " in "@) {
        lemma_in_place(s, from + 1);
    }
}

/// A comparison is no truth value.
proof fn lemma_no_truth(a: Seq<char>, k: Relation, b: Seq<char>)
    requires
        is_side(a),
        is_side(b),
    ensures
        !condition::reads(written(a, k, b), "true"@),
        !condition::reads(written(a, k, b), "false"@),
{
    let s = written(a, k, b);
    let op = condition::operator_text(k);
    let q = (a.len() + 1) as int;
    lemma_marks(a, k, b);
    lemma_operators();
    assert(operative(op[0]));
    assert(s[q + 0] == op[0]);
    assert(chars::lowered(s)[q] == s[q]);
    reveal_strlit("true");
    reveal_strlit("false");
    assert forall|word: Seq<char>| word == "true"@ || word == "false"@ implies !condition::reads(
        s,
        word,
    ) by {
        assert forall|i: int| 0 <= i < word.len() implies !operative(#[trigger] word[i]) by {
        }
        if condition::reads(s, word) {
            assert(word[q] == s[q]);
            assert(word.len() == s.len());
        }
    }
}

/// The sides of a comparison are what stands around its operator.
proof fn lemma_sides_around(a: Seq<char>, k: Relation, b: Seq<char>)
    requires
        is_side(a),
        is_side(b),
    ensures
        ({
            let s = written(a, k, b);
            let op = condition::operator_text(k);
            let q = (a.len() + 1) as int;
            &&& chars::trim(s.subrange(0, q)) == a
            &&& chars::trim(s.subrange(q + op.len(), s.len() as int)) == b
        }),
{
    let s = written(a, k, b);
    let op = condition::operator_text(k);
    let q = (a.len() + 1) as int;
    lemma_side(a);
    lemma_side(b);
    assert(s.subrange(0, q) =~= a.push(' '));
    assert(a.push(' ').drop_last() =~= a);
    chars::lemma_trim_drop_last(a.push(' '));
    let tail = s.subrange(q + op.len(), s.len() as int);
    assert(tail =~= seq![' '] + b);
    assert((seq![' '] + b).drop_first() =~= b);
    assert(chars::trim(seq![' '] + b) == chars::trim(b));
}

/// What a comparison of two sides says is what its operator says of them.
#[verifier::rlimit(30)]
#[verifier::spinoff_prover]
pub(crate) proof fn lemma_comparison_says(a: Seq<char>, k: Relation, b: Seq<char>, t: TupleV)
    requires
        is_side(a),
        is_side(b),
        sides_say(a, k, b, t) is Some,
    ensures
        condition::holds(written(a, k, b), t) == sides_say(a, k, b, t)->0,
{
    let s = written(a, k, b);
    lemma_marks(a, k, b);
    lemma_found(a, k, b);
    lemma_side(a);
    lemma_side(b);
    lemma_no_membership(s);
    lemma_no_truth(a, k, b);
    lemma_sides_around(a, k, b);
    assert(s[0] != '!') by {
        assert(!operative(a[0]));
    }
    assert(condition::comparison(s, k, t) == sides_say(a, k, b, t));
    assert(condition::holds(s, t) == condition::any_comparison(s, t));
}

/// What two sides say of a tuple, compared: a name and a literal, a literal
/// and a name, or two names.
pub open spec fn sides_say(a: Seq<char>, k: Relation, b: Seq<char>, t: TupleV) -> Option<bool> {
    match (condition::braced_name(a), condition::literal_of(b)) {
        (Some(name), Some(lit)) => match condition::bound(t, name) {
            Some(v) => Some(condition::compared(v, k, condition::literal_tuple_value(lit))),
            None => Some(true),
        },
        _ => match (condition::braced_name(b), condition::literal_of(a)) {
            (Some(name), Some(lit)) => match condition::bound(t, name) {
                Some(v) => Some(
                    condition::compared(
                        v,
                        condition::mirrored(k),
                        condition::literal_tuple_value(lit),
                    ),
                ),
                None => Some(true),
            },
            _ => match (condition::braced_name(a), condition::braced_name(b)) {
                (Some(x), Some(y)) => match (condition::bound(t, x), condition::bound(t, y)) {
                    (Some(vx), Some(vy)) => Some(condition::compared(vx, k, vy)),
                    _ => Some(true),
                },
                _ => None,
            },
        },
    }
}

/// A name in braces is read as that name.
pub(crate) proof fn lemma_braced(n: Seq<char>)
    requires
        is_name(n),
    ensures
        is_side(in_braces(n)),
        condition::braced_name(in_braces(n)) == Some(n),
{
    let s = in_braces(n);
    assert(is_name(n) && s == in_braces(n));
    lemma_side(s);
    assert(s.subrange(1, s.len() - 1) =~= n);
    assert(plain(n));
    lemma_side(n);
}

/// A comparison of a name with a literal is what the operator says of the
/// value and the literal, and holds where the name is not bound.
pub proof fn law_name_and_literal(n: Seq<char>, k: Relation, lit: Seq<char>, t: TupleV)
    requires
        is_name(n),
        plain(lit),
        condition::literal_of(lit) is Some,
    ensures
        condition::holds(written(in_braces(n), k, lit), t) == match condition::bound(t, n) {
            Some(v) => condition::compared(
                v,
                k,
                condition::literal_tuple_value(condition::literal_of(lit)->0),
            ),
            None => true,
        },
{
    lemma_braced(n);
    lemma_comparison_says(in_braces(n), k, lit, t);
}

/// With its sides exchanged and its operator mirrored, a comparison of a
/// literal with a name says the same.
pub proof fn law_mirrored(n: Seq<char>, k: Relation, lit: Seq<char>, t: TupleV)
    requires
        is_name(n),
        plain(lit),
        condition::literal_of(lit) is Some,
    ensures
        condition::holds(written(lit, k, in_braces(n)), t) == condition::holds(
            written(in_braces(n), condition::mirrored(k), lit),
            t,
        ),
{
    lemma_braced(n);
    lemma_side(lit);
    assert(unmarked(lit[0]));
    assert(condition::braced_name(lit) is None);
    lemma_comparison_says(lit, k, in_braces(n), t);
    lemma_comparison_says(in_braces(n), condition::mirrored(k), lit, t);
}

/// A comparison of two names holds where one of them is not bound.
pub proof fn law_unbound_names(a: Seq<char>, k: Relation, b: Seq<char>, t: TupleV)
    requires
        is_name(a),
        is_name(b),
        condition::literal_of(in_braces(a)) is None,
        condition::literal_of(in_braces(b)) is None,
        condition::bound(t, a) is None || condition::bound(t, b) is None,
    ensures
        condition::holds(written(in_braces(a), k, in_braces(b)), t),
{
    lemma_braced(a);
    lemma_braced(b);
    lemma_comparison_says(in_braces(a), k, in_braces(b), t);
}

/// A text that is no truth value, negation, conjunction, disjunction,
/// membership or comparison holds.
pub proof fn law_unread_holds(p: Seq<char>, t: TupleV)
    requires
        ({
            let s = chars::trim(p);
            &&& !condition::reads(s, "true"@) && !condition::reads(s, "false"@)
            &&& !(s.len() > 0 && s[0] == '!')
            &&& condition::next_cut(s, "&&"@, 0) is None
            &&& condition::next_cut(s, "||"@, 0) is None
            &&& condition::membership(s) is None
            &&& forall|k: Relation| (#[trigger] condition::comparison(s, k, t)) is None
        }),
    ensures
        condition::holds(p, t),
{
}

} // verus!
