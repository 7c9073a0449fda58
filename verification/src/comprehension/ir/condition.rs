//! Conditions on tuples.
//!
//! A condition is `true` or `false`, a negation `!p`, a conjunction
//! `p && q`, a disjunction `p || q`, a membership `{name} in [..]`, or a
//! comparison between `{name}`s and literals. Anything else holds of every
//! tuple, as does a comparison with a name that the tuple does not bind.
use crate::chars;
use crate::comprehension::source::{LiteralV, LiteralValue};
use crate::comprehension::tuple::{Tuple, TupleV, TupleValue, TupleValueV};
use crate::float;
use crate::float::{Float64, Side};
use vstd::prelude::*;

verus! {

/// Whether a character is alphanumeric, by Unicode.
pub uninterp spec fn alphanumeric(c: char) -> bool;

/// `char::is_alphanumeric` tells a character's Unicode class, which is
/// left without a definition here but for ASCII: there it holds of the
/// letters and the digits alone.
#[verifier::external_body]
fn is_alphanumeric(c: char) -> (r: bool)
    ensures
        r == alphanumeric(c),
        c <= '\u{7f}' ==> r == (chars::is_alpha(c) || chars::is_digit(c)),
{
    c.is_alphanumeric()
}

// ---------------------------------------------------------------------
// Splitting outside brackets
// ---------------------------------------------------------------------

/// What a character adds to the bracket level.
pub open spec fn level_step(c: char) -> int {
    if c == '(' || c == '[' || c == '{' {
        1
    } else if c == ')' || c == ']' || c == '}' {
        -1
    } else {
        0
    }
}

/// The bracket level after the first `n` characters.
pub open spec fn level(s: Seq<char>, n: int) -> int
    decreases n,
{
    if n <= 0 || n > s.len() {
        0
    } else {
        level(s, n - 1) + level_step(s[n - 1])
    }
}

/// Whether `sep` stands at `i`, outside brackets.
pub open spec fn cut_at(s: Seq<char>, sep: Seq<char>, i: int) -> bool {
    level(s, i + 1) == 0 && chars::stands_at(s, i, sep)
}

/// The first place at or after `from` where `sep` stands outside brackets.
pub open spec fn next_cut(s: Seq<char>, sep: Seq<char>, from: int) -> Option<int>
    decreases s.len() - from,
{
    if from < 0 || from >= s.len() {
        None
    } else if cut_at(s, sep, from) {
        Some(from)
    } else {
        next_cut(s, sep, from + 1)
    }
}

/// The trimmed pieces of a text from `from` on, cut at `sep` outside
/// brackets.
pub open spec fn pieces(s: Seq<char>, sep: Seq<char>, from: int) -> Seq<Seq<char>>
    decreases s.len() - from,
{
    match next_cut(s, sep, from) {
        Some(i) if from <= i && i + sep.len() > from && i + sep.len() <= s.len() => seq![
            chars::trim(s.subrange(from, i)),
        ] + pieces(s, sep, i + sep.len() as int),
        _ => seq![chars::trim(s.subrange(from, s.len() as int))],
    }
}

/// Whether a comparison operator stands at `i`, outside brackets. One
/// character followed by `=` is another operator.
pub open spec fn operator_at(s: Seq<char>, op: Seq<char>, i: int) -> bool {
    cut_at(s, op, i) && !(op.len() == 1 && i + 1 < s.len() && s[i + 1] == '=')
}

/// The first place at or after `from` where an operator stands.
pub open spec fn next_operator(s: Seq<char>, op: Seq<char>, from: int) -> Option<int>
    decreases s.len() - from,
{
    if from < 0 || from >= s.len() {
        None
    } else if operator_at(s, op, from) {
        Some(from)
    } else {
        next_operator(s, op, from + 1)
    }
}

// ---------------------------------------------------------------------
// Operands
// ---------------------------------------------------------------------

/// The name inside `{..}`, where only word characters stand there.
pub open spec fn braced_name(s: Seq<char>) -> Option<Seq<char>> {
    let t = chars::trim(s);
    if t.len() >= 2 && t[0] == '{' && t.last() == '}' {
        let name = chars::trim(t.subrange(1, t.len() - 1));
        if name.len() > 0 && (forall|i: int|
            0 <= i < name.len() ==> alphanumeric(#[trigger] name[i]) || name[i] == '_') {
            Some(name)
        } else {
            None
        }
    } else {
        None
    }
}

/// Whether a text reads as a word whatever the case of its letters.
pub open spec fn reads(s: Seq<char>, word: Seq<char>) -> bool {
    chars::lowered(s) == word
}

/// The literal that a text stands for.
pub open spec fn literal_of(s: Seq<char>) -> Option<LiteralV> {
    let t = chars::trim(s);
    if reads(t, "true"@) {
        Some(LiteralV::Bool(true))
    } else if reads(t, "false"@) {
        Some(LiteralV::Bool(false))
    } else if t.len() >= 2 && ((t[0] == '"' && t.last() == '"') || (t[0] == '\'' && t.last()
        == '\'')) {
        Some(LiteralV::Text(t.subrange(1, t.len() - 1)))
    } else {
        match chars::read_i64(t) {
            Some(n) => Some(LiteralV::Int(n)),
            None => match float::read_f64(t) {
                Some(x) => Some(LiteralV::Float(x)),
                None => None,
            },
        }
    }
}

/// The tuple value of a literal.
pub open spec fn literal_tuple_value(l: LiteralV) -> TupleValueV {
    match l {
        LiteralV::Int(n) => TupleValueV::I64(n),
        LiteralV::Float(x) => TupleValueV::F64(x),
        LiteralV::Text(s) => TupleValueV::Str(s),
        LiteralV::Bool(b) => TupleValueV::Bool(b),
    }
}

/// The first value that a tuple binds to a name.
pub open spec fn bound(t: TupleV, name: Seq<char>) -> Option<TupleValueV>
    decreases t.len(),
{
    if t.len() == 0 {
        None
    } else if t[0].0 == name {
        Some(t[0].1)
    } else {
        bound(t.drop_first(), name)
    }
}

// ---------------------------------------------------------------------
// Comparing
// ---------------------------------------------------------------------

/// A comparison.
#[derive(Clone, Copy, Debug, PartialEq, Eq, Structural)]
pub enum Relation {
    Eq,
    Ne,
    Lt,
    Le,
    Gt,
    Ge,
}

/// The operator of a comparison.
pub open spec fn operator_text(k: Relation) -> Seq<char> {
    match k {
        Relation::Eq => "=="@,
        Relation::Ne => "!="@,
        Relation::Le => "<="@,
        Relation::Ge => ">="@,
        Relation::Lt => "<"@,
        Relation::Gt => ">"@,
    }
}

/// The comparison with its sides exchanged.
pub open spec fn mirrored(k: Relation) -> Relation {
    match k {
        Relation::Lt => Relation::Gt,
        Relation::Le => Relation::Ge,
        Relation::Gt => Relation::Lt,
        Relation::Ge => Relation::Le,
        other => other,
    }
}

/// Whether a comparison holds of two values in this order.
pub open spec fn relation_holds(k: Relation, side: Side) -> bool {
    match k {
        Relation::Eq => side is Same,
        Relation::Ne => !(side is Same),
        Relation::Lt => side is Below,
        Relation::Le => !(side is Above),
        Relation::Gt => side is Above,
        Relation::Ge => !(side is Below),
    }
}

/// The order of two texts: that of their first different characters, the
/// shorter one first where one begins the other.
pub open spec fn text_side(a: Seq<char>, b: Seq<char>) -> Side
    decreases a.len(),
{
    if a.len() == 0 && b.len() == 0 {
        Side::Same
    } else if a.len() == 0 {
        Side::Below
    } else if b.len() == 0 {
        Side::Above
    } else if a[0] == b[0] {
        text_side(a.drop_first(), b.drop_first())
    } else {
        float::side_of(a[0] as int, b[0] as int)
    }
}

/// The order of two floats, equal where one is not a number.
pub open spec fn float_side(a: Float64, b: Float64) -> Side {
    match a.compared(b) {
        Some(s) => s,
        None => Side::Same,
    }
}

/// The order of two values of kinds that are comparable.
pub open spec fn value_side(a: TupleValueV, b: TupleValueV) -> Option<Side> {
    match (a, b) {
        (TupleValueV::I64(x), TupleValueV::I64(y)) => Some(float::side_of(x as int, y as int)),
        (TupleValueV::U64(x), TupleValueV::U64(y)) => Some(float::side_of(x as int, y as int)),
        (TupleValueV::F64(x), TupleValueV::F64(y)) => Some(float_side(x, y)),
        (TupleValueV::I64(x), TupleValueV::F64(y)) => Some(
            float_side(Float64 { bits: float::int_bits(x as int) }, y),
        ),
        (TupleValueV::F64(x), TupleValueV::I64(y)) => Some(
            float_side(x, Float64 { bits: float::int_bits(y as int) }),
        ),
        (TupleValueV::Str(x), TupleValueV::Str(y)) => Some(text_side(x, y)),
        (TupleValueV::Bool(x), TupleValueV::Bool(y)) => Some(
            float::side_of(
                if x {
                    1
                } else {
                    0
                },
                if y {
                    1
                } else {
                    0
                },
            ),
        ),
        _ => None,
    }
}

/// Whether a comparison holds of two values; none holds of values of kinds
/// that are not comparable.
pub open spec fn compared(a: TupleValueV, k: Relation, b: TupleValueV) -> bool {
    match value_side(a, b) {
        Some(side) => relation_holds(k, side),
        None => false,
    }
}

// ---------------------------------------------------------------------
// Conditions
// ---------------------------------------------------------------------

/// The comma-separated pieces of a text from `from` on.
pub open spec fn comma_pieces(s: Seq<char>, from: int) -> Seq<Seq<char>>
    decreases s.len() - from,
{
    if from < 0 || from > s.len() {
        Seq::empty()
    } else {
        let end = next_comma(s, from);
        if end < from || end >= s.len() {
            seq![s.subrange(from, s.len() as int)]
        } else {
            seq![s.subrange(from, end)] + comma_pieces(s, end + 1)
        }
    }
}

/// The first comma at or after `from`; the end where there is none.
pub open spec fn next_comma(s: Seq<char>, from: int) -> int
    decreases s.len() - from,
{
    if from < 0 || from >= s.len() {
        s.len() as int
    } else if s[from] == ',' {
        from
    } else {
        next_comma(s, from + 1)
    }
}

/// Whether a piece of a list is a literal equal to a value.
pub open spec fn piece_matches(piece: Seq<char>, v: TupleValueV) -> bool {
    match literal_of(chars::trim(piece)) {
        Some(l) => compared(literal_tuple_value(l), Relation::Eq, v),
        None => false,
    }
}

/// The first place where ` in ` stands.
pub open spec fn in_place(s: Seq<char>, from: int) -> Option<int>
    decreases s.len() - from,
{
    if from < 0 || from >= s.len() {
        None
    } else if chars::stands_at(s, from, " in "@) {
        Some(from)
    } else {
        in_place(s, from + 1)
    }
}

/// The name and the list of a membership.
pub open spec fn membership(s: Seq<char>) -> Option<(Seq<char>, Seq<char>)> {
    match in_place(s, 0) {
        Some(p) => {
            let rhs = chars::trim(s.subrange(p + 4, s.len() as int));
            match braced_name(chars::trim(s.subrange(0, p))) {
                Some(name) => if rhs.len() >= 2 && rhs[0] == '[' && rhs.last() == ']' {
                    Some((name, rhs.subrange(1, rhs.len() - 1)))
                } else {
                    None
                },
                None => None,
            }
        },
        None => None,
    }
}

/// What a comparison whose operator stands at `i` says of a tuple; `None`
/// where its sides are not operands.
pub open spec fn comparison_at(s: Seq<char>, k: Relation, i: int, t: TupleV) -> Option<bool> {
    let lhs = chars::trim(s.subrange(0, i));
    let rhs = chars::trim(s.subrange(i + operator_text(k).len(), s.len() as int));
    match (braced_name(lhs), literal_of(rhs)) {
        (Some(name), Some(lit)) => match bound(t, name) {
            Some(v) => Some(compared(v, k, literal_tuple_value(lit))),
            None => Some(true),
        },
        _ => match (braced_name(rhs), literal_of(lhs)) {
            (Some(name), Some(lit)) => match bound(t, name) {
                Some(v) => Some(compared(v, mirrored(k), literal_tuple_value(lit))),
                None => Some(true),
            },
            _ => match (braced_name(lhs), braced_name(rhs)) {
                (Some(a), Some(b)) => match (bound(t, a), bound(t, b)) {
                    (Some(va), Some(vb)) => Some(compared(va, k, vb)),
                    _ => Some(true),
                },
                _ => None,
            },
        },
    }
}

/// What a text says of a tuple, read as a comparison by this operator.
pub open spec fn comparison(s: Seq<char>, k: Relation, t: TupleV) -> Option<bool> {
    match next_operator(s, operator_text(k), 0) {
        Some(i) => comparison_at(s, k, i, t),
        None => None,
    }
}

/// What a text says of a tuple, read as a comparison by the first operator
/// that makes it one; it holds where none does.
pub open spec fn any_comparison(s: Seq<char>, t: TupleV) -> bool {
    match comparison(s, Relation::Eq, t) {
        Some(b) => b,
        None => match comparison(s, Relation::Ne, t) {
            Some(b) => b,
            None => match comparison(s, Relation::Le, t) {
                Some(b) => b,
                None => match comparison(s, Relation::Ge, t) {
                    Some(b) => b,
                    None => match comparison(s, Relation::Lt, t) {
                        Some(b) => b,
                        None => match comparison(s, Relation::Gt, t) {
                            Some(b) => b,
                            None => true,
                        },
                    },
                },
            },
        },
    }
}

/// What a text that is no negation, conjunction or disjunction says of a
/// tuple.
pub open spec fn atom_holds(s: Seq<char>, t: TupleV) -> bool {
    match membership(s) {
        Some((name, list)) => match bound(t, name) {
            Some(v) => exists|i: int|
                0 <= i < comma_pieces(list, 0).len() && piece_matches(
                    #[trigger] comma_pieces(list, 0)[i],
                    v,
                ),
            None => true,
        },
        None => any_comparison(s, t),
    }
}

/// Whether a condition holds of a tuple.
pub open spec fn holds(p: Seq<char>, t: TupleV) -> bool
    decreases p.len(), 0nat,
    when true
    via holds_decreases
{
    let s = chars::trim(p);
    if reads(s, "true"@) {
        true
    } else if reads(s, "false"@) {
        false
    } else if s.len() > 0 && s[0] == '!' {
        !holds(chars::trim(s.skip(1)), t)
    } else if next_cut(s, "&&"@, 0) is Some {
        let parts = pieces(s, "&&"@, 0);
        forall|i: int|
            0 <= i < parts.len() ==> (parts[i].len() < p.len() && holds(#[trigger] parts[i], t))
    } else if next_cut(s, "||"@, 0) is Some {
        let parts = pieces(s, "||"@, 0);
        exists|i: int|
            0 <= i < parts.len() && parts[i].len() < p.len() && holds(#[trigger] parts[i], t)
    } else {
        atom_holds(s, t)
    }
}

#[via_fn]
proof fn holds_decreases(p: Seq<char>, t: TupleV) {
    let s = chars::trim(p);
    lemma_trim_shorter(p);
    if s.len() > 0 {
        lemma_trim_shorter(s.skip(1));
    }
}

/// Trimming does not lengthen a text.
pub proof fn lemma_trim_shorter(s: Seq<char>)
    ensures
        chars::trim(s).len() <= s.len(),
{
    lemma_trim_start_shorter(s);
    lemma_trim_end_shorter(chars::trim_start(s));
}

proof fn lemma_trim_start_shorter(s: Seq<char>)
    ensures
        chars::trim_start(s).len() <= s.len(),
    decreases s.len(),
{
    if s.len() > 0 && chars::is_space(s[0]) {
        lemma_trim_start_shorter(s.drop_first());
    }
}

proof fn lemma_trim_end_shorter(s: Seq<char>)
    ensures
        chars::trim_end(s).len() <= s.len(),
    decreases s.len(),
{
    if s.len() > 0 && chars::is_space(s.last()) {
        lemma_trim_end_shorter(s.drop_last());
    }
}

/// Where the next cut is, it is at or after `from`, and `sep` stands there.
pub proof fn lemma_next_cut(s: Seq<char>, sep: Seq<char>, from: int)
    requires
        0 <= from,
    ensures
        next_cut(s, sep, from) matches Some(i) ==> from <= i < s.len() && cut_at(s, sep, i),
    decreases s.len() - from,
{
    if from < s.len() && !cut_at(s, sep, from) {
        lemma_next_cut(s, sep, from + 1);
    }
}

/// The pieces of a text that is cut are shorter than it.
pub proof fn lemma_pieces_shorter(s: Seq<char>, sep: Seq<char>, from: int)
    requires
        0 <= from <= s.len(),
        sep.len() > 0,
    ensures
        forall|k: int|
            0 <= k < pieces(s, sep, from).len() ==> (#[trigger] pieces(s, sep, from)[k]).len()
                <= s.len() - from,
        next_cut(s, sep, from) is Some ==> forall|k: int|
            0 <= k < pieces(s, sep, from).len() ==> (#[trigger] pieces(s, sep, from)[k]).len()
                < s.len() - from,
    decreases s.len() - from,
{
    lemma_next_cut(s, sep, from);
    match next_cut(s, sep, from) {
        Some(i) => {
            let next = i + sep.len() as int;
            lemma_pieces_shorter(s, sep, next);
            lemma_trim_shorter(s.subrange(from, i));
            let rest = pieces(s, sep, next);
            let all = pieces(s, sep, from);
            assert(all == seq![chars::trim(s.subrange(from, i))] + rest);
            assert forall|k: int| 0 <= k < all.len() implies (#[trigger] all[k]).len() < s.len()
                - from by {
                if k > 0 {
                    assert(all[k] == rest[k - 1]);
                }
            }
        },
        None => {
            lemma_trim_shorter(s.subrange(from, s.len() as int));
        },
    }
}

/// Characters that are no brackets leave the level.
pub proof fn lemma_level_flat(s: Seq<char>, from: int, to: int)
    requires
        0 <= from <= to <= s.len(),
        forall|k: int| from <= k < to ==> level_step(#[trigger] s[k]) == 0,
    ensures
        level(s, to) == level(s, from),
    decreases to - from,
{
    if from < to {
        lemma_level_flat(s, from, to - 1);
    }
}

/// The contents of a run of texts.
pub open spec fn runs_of(v: Seq<Vec<char>>) -> Seq<Seq<char>> {
    Seq::new(v.len(), |i: int| v[i]@)
}

/// What a character adds to the bracket level.
pub(crate) fn bracket_step(c: char) -> (r: i128)
    ensures
        r == level_step(c),
{
    if c == '(' || c == '[' || c == '{' {
        1
    } else if c == ')' || c == ']' || c == '}' {
        -1
    } else {
        0
    }
}

/// The trimmed pieces of `s` cut at `sep` outside brackets; `None` where
/// there is no cut.
pub(crate) fn split_top_level(s: &Vec<char>, sep: &Vec<char>) -> (r: Option<Vec<Vec<char>>>)
    requires
        sep@.len() > 0,
        forall|k: int| 0 <= k < sep@.len() ==> level_step(#[trigger] sep@[k]) == 0,
    ensures
        r is Some <==> next_cut(s@, sep@, 0) is Some,
        r matches Some(parts) ==> runs_of(parts@) == pieces(s@, sep@, 0),
{
    let mut parts: Vec<Vec<char>> = Vec::new();
    let mut depth: i128 = 0;
    let mut last: usize = 0;
    let mut i: usize = 0;
    let ghost goal = pieces(s@, sep@, 0);
    assert(runs_of(parts@) + pieces(s@, sep@, 0) =~= goal);
    while i < s.len()
        invariant
            last <= i <= s@.len(),
            sep@.len() > 0,
            forall|k: int| 0 <= k < sep@.len() ==> level_step(#[trigger] sep@[k]) == 0,
            goal == pieces(s@, sep@, 0),
            -(i as int) <= depth <= i,
            depth == level(s@, i as int),
            next_cut(s@, sep@, last as int) == next_cut(s@, sep@, i as int),
            runs_of(parts@) + pieces(s@, sep@, last as int) == goal,
            parts@.len() == 0 ==> last == 0,
            parts@.len() > 0 ==> next_cut(s@, sep@, 0) is Some,
        decreases s.len() - i,
    {
        let ghost before = depth;
        depth = depth + bracket_step(s[i]);
        assert(depth == level(s@, i + 1));
        if depth == 0 && chars::has_at(s, i, sep) {
            let ghost had = parts@;
            proof {
                assert(cut_at(s@, sep@, i as int));
                assert(next_cut(s@, sep@, last as int) == Some(i as int));
                assert forall|k: int| i <= k < i + sep@.len() implies level_step(#[trigger] s@[k])
                    == 0 by {
                    assert(s@.subrange(i as int, i + sep@.len())[k - i] == sep@[k - i]);
                }
                lemma_level_flat(s@, i as int, i + sep@.len());
                lemma_level_flat(s@, i as int, i + 1);
            }
            let piece: Vec<char> = chars::trim_chars(&chars::slice_chars(s, last, i));
            let ghost head = piece@;
            parts.push(piece);
            proof {
                assert(runs_of(parts@) =~= runs_of(had).push(head));
                let next = i + sep@.len() as int;
                assert(pieces(s@, sep@, last as int) == seq![head] + pieces(s@, sep@, next));
                assert(runs_of(had) + (seq![head] + pieces(s@, sep@, next)) =~= runs_of(parts@)
                    + pieces(s@, sep@, next));
            }
            last = i + sep.len();
            i = last;
        } else {
            assert(!cut_at(s@, sep@, i as int));
            i = i + 1;
        }
    }
    assert(next_cut(s@, sep@, last as int) is None);
    if parts.len() == 0 {
        return None;
    }
    let ghost had = parts@;
    let piece: Vec<char> = chars::trim_chars(&chars::slice_chars(s, last, s.len()));
    let ghost head = piece@;
    parts.push(piece);
    proof {
        assert(pieces(s@, sep@, last as int) == seq![head]);
        assert(runs_of(parts@) =~= runs_of(had) + seq![head]);
    }
    Some(parts)
}

/// The place of the first operator `op` in `s`.
fn split_top_level_op(s: &Vec<char>, op: &Vec<char>) -> (r: Option<usize>)
    requires
        op@.len() > 0,
    ensures
        match r {
            Some(i) => next_operator(s@, op@, 0) == Some(i as int) && i + op@.len() <= s@.len(),
            None => next_operator(s@, op@, 0) is None,
        },
{
    let mut depth: i128 = 0;
    let mut i: usize = 0;
    while i < s.len()
        invariant
            i <= s@.len(),
            op@.len() > 0,
            -(i as int) <= depth <= i,
            depth == level(s@, i as int),
            next_operator(s@, op@, 0) == next_operator(s@, op@, i as int),
        decreases s.len() - i,
    {
        depth = depth + bracket_step(s[i]);
        assert(depth == level(s@, i + 1));
        if depth == 0 && chars::has_at(s, i, op) {
            let doubled: bool = op.len() == 1 && i + 1 < s.len() && s[i + 1] == '=';
            if !doubled {
                assert(operator_at(s@, op@, i as int));
                return Some(i);
            }
        }
        assert(!operator_at(s@, op@, i as int));
        i = i + 1;
    }
    None
}

/// The name inside `{..}`.
pub(crate) fn strip_curly(s: &Vec<char>) -> (r: Option<Vec<char>>)
    ensures
        match (r, braced_name(s@)) {
            (Some(n), Some(want)) => n@ == want,
            (None, None) => true,
            _ => false,
        },
{
    let t: Vec<char> = chars::trim_chars(s);
    if t.len() >= 2 && t[0] == '{' && t[t.len() - 1] == '}' {
        let name: Vec<char> = chars::trim_chars(&chars::slice_chars(&t, 1, t.len() - 1));
        if name.len() == 0 {
            return None;
        }
        let mut i: usize = 0;
        while i < name.len()
            invariant
                i <= name@.len(),
                forall|k: int|
                    0 <= k < i ==> alphanumeric(#[trigger] name@[k]) || name@[k] == '_',
                name@ == chars::trim(t@.subrange(1, t@.len() - 1)),
                t@ == chars::trim(s@),
                t@.len() >= 2,
            decreases name.len() - i,
        {
            let c: char = name[i];
            if !(is_alphanumeric(c) || c == '_') {
                assert(!(alphanumeric(name@[i as int]) || name@[i as int] == '_'));
                return None;
            }
            i = i + 1;
        }
        Some(name)
    } else {
        None
    }
}

/// The literal that `s` stands for.
pub(crate) fn parse_literal(s: &Vec<char>) -> (r: Option<LiteralValue>)
    ensures
        match (r, literal_of(s@)) {
            (Some(l), Some(want)) => l@ == want,
            (None, None) => true,
            _ => false,
        },
{
    let t: Vec<char> = chars::trim_chars(s);
    if chars::reads_as(&t, "true") {
        return Some(LiteralValue::Bool(true));
    }
    if chars::reads_as(&t, "false") {
        return Some(LiteralValue::Bool(false));
    }
    if t.len() >= 2 {
        let first: char = t[0];
        let last: char = t[t.len() - 1];
        if (first == '"' && last == '"') || (first == '\'' && last == '\'') {
            return Some(LiteralValue::String(chars::slice_string(&t, 1, t.len() - 1)));
        }
    }
    match chars::i64_of_chars(&t) {
        Some(n) => Some(LiteralValue::Int(n)),
        None => match Float64::of_chars(&t) {
            Some(x) => Some(LiteralValue::Float(x)),
            None => None,
        },
    }
}

/// The tuple value of a literal.
pub fn literal_to_tuple_value(lv: &LiteralValue) -> (r: TupleValue)
    ensures
        r@ == literal_tuple_value(lv@),
{
    match lv {
        LiteralValue::Int(n) => TupleValue::I64(*n),
        LiteralValue::Float(x) => TupleValue::F64(*x),
        LiteralValue::String(s) => TupleValue::Str(s.clone()),
        LiteralValue::Bool(b) => TupleValue::Bool(*b),
    }
}

/// The first value that `tuple` binds to `name`.
fn lookup<'a>(tuple: &'a Tuple, name: &Vec<char>) -> (r: Option<&'a TupleValue>)
    ensures
        match (r, bound(tuple@, name@)) {
            (Some(v), Some(want)) => v@ == want,
            (None, None) => true,
            _ => false,
        },
{
    let want: String = chars::string_of(name);
    let mut i: usize = 0;
    assert(tuple@.skip(0) =~= tuple@);
    while i < tuple.bindings.len()
        invariant
            i <= tuple.bindings@.len(),
            want@ == name@,
            bound(tuple@, name@) == bound(tuple@.skip(i as int), name@),
        decreases tuple.bindings.len() - i,
    {
        let ghost rest = tuple@.skip(i as int);
        assert(rest.drop_first() =~= tuple@.skip(i + 1));
        assert(rest[0] == (tuple.bindings@[i as int].0@, tuple.bindings@[i as int].1@));
        if *tuple.bindings[i].0.as_str() == *want.as_str() {
            return Some(&tuple.bindings[i].1);
        }
        i = i + 1;
    }
    assert(tuple@.skip(i as int) =~= Seq::<(Seq<char>, TupleValueV)>::empty());
    None
}

/// The comparison with its sides exchanged.
fn invert_kind(k: Relation) -> (r: Relation)
    ensures
        r == mirrored(k),
{
    match k {
        Relation::Lt => Relation::Gt,
        Relation::Le => Relation::Ge,
        Relation::Gt => Relation::Lt,
        Relation::Ge => Relation::Le,
        Relation::Eq => Relation::Eq,
        Relation::Ne => Relation::Ne,
    }
}

fn int_side(a: i128, b: i128) -> (r: Side)
    ensures
        r == float::side_of(a as int, b as int),
{
    if a < b {
        Side::Below
    } else if a == b {
        Side::Same
    } else {
        Side::Above
    }
}

fn order_of_floats(a: Float64, b: Float64) -> (r: Side)
    ensures
        r == float_side(a, b),
{
    match a.compare(b) {
        Some(s) => s,
        None => Side::Same,
    }
}

/// The order of two texts.
fn order_of_texts(a: &str, b: &str) -> (r: Side)
    ensures
        r == text_side(a@, b@),
{
    let x: Vec<char> = chars::chars_of(a);
    let y: Vec<char> = chars::chars_of(b);
    let mut i: usize = 0;
    assert(x@.skip(0) =~= x@);
    assert(y@.skip(0) =~= y@);
    while i < x.len() && i < y.len()
        invariant
            i <= x@.len(),
            i <= y@.len(),
            x@ == a@,
            y@ == b@,
            text_side(a@, b@) == text_side(x@.skip(i as int), y@.skip(i as int)),
        decreases x.len() - i,
    {
        assert(x@.skip(i as int).drop_first() =~= x@.skip(i + 1));
        assert(y@.skip(i as int).drop_first() =~= y@.skip(i + 1));
        if x[i] != y[i] {
            return if x[i] < y[i] {
                Side::Below
            } else {
                Side::Above
            };
        }
        i = i + 1;
    }
    if i < x.len() {
        Side::Above
    } else if i < y.len() {
        Side::Below
    } else {
        Side::Same
    }
}

/// Whether `a` stands in relation `kind` to `b`.
fn compare(a: &TupleValue, kind: Relation, b: &TupleValue) -> (r: bool)
    ensures
        r == compared(a@, kind, b@),
{
    let side: Side = match (a, b) {
        (TupleValue::I64(x), TupleValue::I64(y)) => int_side(*x as i128, *y as i128),
        (TupleValue::U64(x), TupleValue::U64(y)) => int_side(*x as i128, *y as i128),
        (TupleValue::F64(x), TupleValue::F64(y)) => order_of_floats(*x, *y),
        (TupleValue::I64(x), TupleValue::F64(y)) => order_of_floats(Float64::from_i64(*x), *y),
        (TupleValue::F64(x), TupleValue::I64(y)) => order_of_floats(*x, Float64::from_i64(*y)),
        (TupleValue::Str(x), TupleValue::Str(y)) => order_of_texts(x.as_str(), y.as_str()),
        (TupleValue::Bool(x), TupleValue::Bool(y)) => int_side(
            if *x {
                1
            } else {
                0
            },
            if *y {
                1
            } else {
                0
            },
        ),
        _ => return false,
    };
    match kind {
        Relation::Eq => matches!(side, Side::Same),
        Relation::Ne => !matches!(side, Side::Same),
        Relation::Lt => matches!(side, Side::Below),
        Relation::Le => !matches!(side, Side::Above),
        Relation::Gt => matches!(side, Side::Above),
        Relation::Ge => !matches!(side, Side::Below),
    }
}

/// The comma-separated pieces of `list`.
pub(crate) fn split_commas(list: &Vec<char>) -> (r: Vec<Vec<char>>)
    ensures
        runs_of(r@) == comma_pieces(list@, 0),
{
    let ghost all = comma_pieces(list@, 0);
    let mut out: Vec<Vec<char>> = Vec::new();
    let mut start: usize = 0;
    let mut i: usize = 0;
    assert(runs_of(out@) + comma_pieces(list@, 0) =~= all);
    loop
        invariant
            start <= i <= list@.len(),
            all == comma_pieces(list@, 0),
            runs_of(out@) + comma_pieces(list@, start as int) == all,
            next_comma(list@, start as int) == next_comma(list@, i as int),
        decreases list.len() - i,
    {
        if i == list.len() || list[i] == ',' {
            assert(next_comma(list@, i as int) == i);
            let ghost before = out@;
            let piece: Vec<char> = chars::slice_chars(list, start, i);
            let ghost head = piece@;
            out.push(piece);
            assert(runs_of(out@) =~= runs_of(before).push(head));
            if i == list.len() {
                assert(comma_pieces(list@, start as int) =~= seq![head]);
                assert(runs_of(out@) =~= all);
                return out;
            }
            proof {
                let tail = comma_pieces(list@, i + 1);
                assert(comma_pieces(list@, start as int) == seq![head] + tail);
                assert(runs_of(before) + (seq![head] + tail) =~= runs_of(out@) + tail);
            }
            start = i + 1;
        } else {
            assert(next_comma(list@, i as int) == next_comma(list@, i + 1));
        }
        i = i + 1;
    }
}

/// Whether the comma-separated `list` has a literal equal to `v`.
fn listed(list: &Vec<char>, v: &TupleValue) -> (r: bool)
    ensures
        r == exists|i: int|
            0 <= i < comma_pieces(list@, 0).len() && piece_matches(
                #[trigger] comma_pieces(list@, 0)[i],
                v@,
            ),
{
    let pieces: Vec<Vec<char>> = split_commas(list);
    let ghost all = comma_pieces(list@, 0);
    let mut i: usize = 0;
    while i < pieces.len()
        invariant
            i <= pieces@.len(),
            all == comma_pieces(list@, 0),
            runs_of(pieces@) == all,
            forall|k: int| 0 <= k < i ==> !piece_matches(#[trigger] all[k], v@),
        decreases pieces.len() - i,
    {
        assert(all[i as int] == pieces@[i as int]@);
        let hit: bool = match parse_literal(&chars::trim_chars(&pieces[i])) {
            Some(l) => compare(&literal_to_tuple_value(&l), Relation::Eq, v),
            None => false,
        };
        if hit {
            assert(piece_matches(all[i as int], v@));
            return true;
        }
        i = i + 1;
    }
    assert(pieces@.len() == all.len());
    false
}

/// The name and the list of a membership.
fn split_membership(s: &Vec<char>) -> (r: Option<(Vec<char>, Vec<char>)>)
    ensures
        match (r, membership(s@)) {
            (Some(m), Some(want)) => m.0@ == want.0 && m.1@ == want.1,
            (None, None) => true,
            _ => false,
        },
{
    let mark: Vec<char> = chars::chars_of(" in ");
    proof {
        reveal_strlit(" in ");
    }
    let mut p: usize = 0;
    while p < s.len()
        invariant
            p <= s@.len(),
            mark@ == " in "@,
            mark@.len() == 4,
            in_place(s@, 0) == in_place(s@, p as int),
        decreases s.len() - p,
    {
        if chars::has_at(s, p, &mark) {
            let lhs: Vec<char> = chars::trim_chars(&chars::slice_chars(s, 0, p));
            let rhs: Vec<char> = chars::trim_chars(&chars::slice_chars(s, p + 4, s.len()));
            return match strip_curly(&lhs) {
                Some(name) => {
                    if rhs.len() >= 2 && rhs[0] == '[' && rhs[rhs.len() - 1] == ']' {
                        Some((name, chars::slice_chars(&rhs, 1, rhs.len() - 1)))
                    } else {
                        None
                    }
                },
                None => None,
            };
        }
        p = p + 1;
    }
    None
}

/// What `s` says of `tuple`, read as a comparison by `kind`.
fn try_comparison(s: &Vec<char>, op: &str, kind: Relation, tuple: &Tuple) -> (r: Option<bool>)
    requires
        op@ == operator_text(kind),
    ensures
        r == comparison(s@, kind, tuple@),
{
    let ops: Vec<char> = chars::chars_of(op);
    proof {
        reveal_strlit("==");
        reveal_strlit("!=");
        reveal_strlit("<=");
        reveal_strlit(">=");
        reveal_strlit("<");
        reveal_strlit(">");
    }
    match split_top_level_op(s, &ops) {
        None => None,
        Some(at) => {
            let end: usize = s.len();
            let lhs: Vec<char> = chars::trim_chars(&chars::slice_chars(s, 0, at));
            let rhs: Vec<char> = chars::trim_chars(
                &chars::slice_chars(s, at + ops.len(), end),
            );
            let left_name: Option<Vec<char>> = strip_curly(&lhs);
            let right_name: Option<Vec<char>> = strip_curly(&rhs);
            match (&left_name, parse_literal(&rhs)) {
                (Some(name), Some(lit)) => {
                    return match lookup(tuple, name) {
                        Some(v) => Some(compare(v, kind, &literal_to_tuple_value(&lit))),
                        None => Some(true),
                    };
                },
                _ => {},
            }
            match (&right_name, parse_literal(&lhs)) {
                (Some(name), Some(lit)) => {
                    return match lookup(tuple, name) {
                        Some(v) => Some(
                            compare(v, invert_kind(kind), &literal_to_tuple_value(&lit)),
                        ),
                        None => Some(true),
                    };
                },
                _ => {},
            }
            match (&left_name, &right_name) {
                (Some(a), Some(b)) => match (lookup(tuple, a), lookup(tuple, b)) {
                    (Some(va), Some(vb)) => Some(compare(va, kind, vb)),
                    _ => Some(true),
                },
                _ => None,
            }
        },
    }
}

/// What a text that is no negation, conjunction or disjunction says of
/// `tuple`.
fn evaluate_atom(s: &Vec<char>, tuple: &Tuple) -> (r: bool)
    ensures
        r == atom_holds(s@, tuple@),
{
    if let Some((name, list)) = split_membership(s) {
        return match lookup(tuple, &name) {
            Some(v) => listed(&list, v),
            None => true,
        };
    }
    if let Some(b) = try_comparison(s, "==", Relation::Eq, tuple) {
        return b;
    }
    if let Some(b) = try_comparison(s, "!=", Relation::Ne, tuple) {
        return b;
    }
    if let Some(b) = try_comparison(s, "<=", Relation::Le, tuple) {
        return b;
    }
    if let Some(b) = try_comparison(s, ">=", Relation::Ge, tuple) {
        return b;
    }
    if let Some(b) = try_comparison(s, "<", Relation::Lt, tuple) {
        return b;
    }
    if let Some(b) = try_comparison(s, ">", Relation::Gt, tuple) {
        return b;
    }
    true
}

/// Whether the condition `p` holds of `tuple`.
#[verifier::loop_isolation(false)]
fn evaluate_chars(p: &Vec<char>, tuple: &Tuple) -> (r: bool)
    ensures
        r == holds(p@, tuple@),
    decreases p@.len(),
{
    let s: Vec<char> = chars::trim_chars(p);
    proof {
        lemma_trim_shorter(p@);
        reveal_strlit("&&");
        reveal_strlit("||");
    }
    if chars::reads_as(&s, "true") {
        return true;
    }
    if chars::reads_as(&s, "false") {
        return false;
    }
    if s.len() > 0 && s[0] == '!' {
        let rest: Vec<char> = chars::slice_chars(&s, 1, s.len());
        let inner: Vec<char> = chars::trim_chars(&rest);
        proof {
            assert(rest@ =~= s@.skip(1));
            lemma_trim_shorter(rest@);
        }
        return !evaluate_chars(&inner, tuple);
    }
    let and: Vec<char> = chars::chars_of("&&");
    proof {
        lemma_pieces_shorter(s@, "&&"@, 0);
        lemma_pieces_shorter(s@, "||"@, 0);
    }
    if let Some(parts) = split_top_level(&s, &and) {
        let ghost all = pieces(s@, "&&"@, 0);
        let mut i: usize = 0;
        while i < parts.len()
            invariant
                i <= parts@.len(),
                runs_of(parts@) == all,
                forall|k: int| 0 <= k < all.len() ==> (#[trigger] all[k]).len() < p@.len(),
                forall|k: int| 0 <= k < i ==> holds(#[trigger] all[k], tuple@),
            decreases parts.len() - i,
        {
            assert(all[i as int] == parts@[i as int]@);
            if !evaluate_chars(&parts[i], tuple) {
                assert(!holds(all[i as int], tuple@));
                assert(s@ == chars::trim(p@));
                assert(!holds(p@, tuple@));
                return false;
            }
            i = i + 1;
        }
        assert(holds(p@, tuple@));
        return true;
    }
    let or: Vec<char> = chars::chars_of("||");
    if let Some(parts) = split_top_level(&s, &or) {
        let ghost all = pieces(s@, "||"@, 0);
        let mut i: usize = 0;
        while i < parts.len()
            invariant
                i <= parts@.len(),
                runs_of(parts@) == all,
                forall|k: int| 0 <= k < all.len() ==> (#[trigger] all[k]).len() < p@.len(),
                forall|k: int| 0 <= k < i ==> !holds(#[trigger] all[k], tuple@),
            decreases parts.len() - i,
        {
            assert(all[i as int] == parts@[i as int]@);
            if evaluate_chars(&parts[i], tuple) {
                assert(holds(all[i as int], tuple@));
                assert(holds(p@, tuple@));
                return true;
            }
            i = i + 1;
        }
        assert(!holds(p@, tuple@));
        return false;
    }
    evaluate_atom(&s, tuple)
}

/// Whether the condition `predicate` holds of `tuple`.
pub fn evaluate_predicate(predicate: &str, tuple: &Tuple) -> (r: bool)
    ensures
        r == holds(predicate@, tuple@),
{
    evaluate_chars(&chars::chars_of(predicate), tuple)
}

} // verus!
