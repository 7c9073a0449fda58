//! What tokens and compound values are iterated as, and what is said of
//! written comprehensions.
use crate::chars;
use crate::comprehension::ast_legacy;
use crate::comprehension::ast_legacy::{ClauseSourceV, ClauseV, OrderV};
use crate::comprehension::source;
use crate::comprehension::spec::legacy_convert;
use crate::comprehension::spec::text;
use crate::float;
use crate::float::Float64;
use crate::float_laws;
use crate::text_laws;
use crate::value::{DatumV, JsonV, Partition};
use vstd::prelude::*;

verus! {

/// A token of digits is the whole number that they write; digits with a
/// point between them are the double nearest to the number; a number with a
/// minus is a double too.
pub proof fn law_numbers_as_tokens(n: u64, a: Seq<char>, b: Seq<char>)
    requires
        chars::all_digits(a),
        chars::all_digits(b),
        a.len() > 0,
        b.len() > 0,
    ensures
        source::token_value(chars::decimal(n as nat)) == DatumV::U64(n),
        source::token_value(a + seq!['.'] + b) matches DatumV::F64(x) && float::nearest(
            x.bits,
            chars::digits_value(a + b) * float::one_in_units(),
            vstd::arithmetic::power::pow(10, b.len()) as nat,
        ),
        source::token_value(seq!['-'] + chars::decimal(n as nat)) is F64,
{
    chars::law_decimal_reads_back(n);
    let s = a + seq!['.'] + b;
    let k = a.len() as int;
    assert(s[k] == '.');
    assert(!chars::is_digit(s[k]));
    assert(chars::is_digit(a[0]));
    assert(s[0] == a[0]);
    assert(!chars::all_digits(s));
    assert(chars::read_u64(s) is None);
    float_laws::law_decimal_with_a_point(a, b);
    float_laws::law_decimal_is_nearest(chars::digits_value(a + b), b.len());
    lemma_not_a_word(s);
    let d = chars::decimal(n as nat);
    chars::lemma_decimal_digits(n as nat);
    assert(chars::is_digit(d[0]));
    text_laws::law_unsigned_numbers_read_back(n as nat);
    assert((seq!['-'] + d).drop_first() =~= d);
    lemma_not_a_word(d);
    float_laws::law_decimal_with_a_point(d, Seq::empty());
}

/// A text that begins with a digit is none of the words for doubles.
proof fn lemma_not_a_word(s: Seq<char>)
    requires
        s.len() > 0,
        chars::is_digit(s[0]),
    ensures
        chars::lowered(s) != "inf"@,
        chars::lowered(s) != "infinity"@,
        chars::lowered(s) != "nan"@,
{
    reveal_strlit("inf");
    reveal_strlit("infinity");
    reveal_strlit("nan");
    assert(chars::lowered(s)[0] == s[0]);
    assert("inf"@[0] == 'i');
    assert("infinity"@[0] == 'i');
    assert("nan"@[0] == 'n');
}

/// A token that is neither a number nor a truth value is the text that it
/// is; the words for the truth values are these.
pub proof fn law_words_as_tokens(t: Seq<char>)
    ensures
        source::token_value("true"@) == DatumV::Bool(true),
        source::token_value("false"@) == DatumV::Bool(false),
        t != "true"@ && t != "false"@ && chars::read_u64(t) is None && float::read_f64(t) is None
            ==> source::token_value(t) == DatumV::Str(t),
{
    reveal_strlit("true");
    reveal_strlit("false");
    reveal_strlit("inf");
    reveal_strlit("infinity");
    reveal_strlit("nan");
    assert(!chars::is_digit("true"@[0]));
    assert(!chars::is_digit("false"@[0]));
    assert(chars::lowered("true"@)[0] == 't');
    assert(chars::lowered("false"@)[0] == 'f');
    assert("inf"@[0] == 'i');
    assert("infinity"@[0] == 'i');
    assert("nan"@[0] == 'n');
    assert(float::run_end("true"@, 0) == 0);
    assert(float::run_end("false"@, 0) == 0);
    assert("true"@.subrange(0, 0) =~= Seq::<char>::empty());
    assert("false"@.subrange(0, 0) =~= Seq::<char>::empty());
}

/// A compound value is iterated by its elements in their order, a whole
/// number as a signed one of the same value.
pub proof fn law_elements_of_a_value(
    ints: Seq<i64>,
    shorts: Seq<i16>,
    doubles: Seq<Float64>,
    items: Seq<JsonV>,
    parts: Seq<Partition>,
    i: int,
)
    requires
        0 <= i < ints.len(),
        i < shorts.len(),
        i < doubles.len(),
        i < items.len(),
        i < parts.len(),
    ensures
        source::interior(DatumV::VecI64(ints)) matches Some(s) && s.len() == ints.len() && s[i]
            == DatumV::I64(ints[i]),
        source::interior(DatumV::VecI16(shorts)) matches Some(s) && s.len() == shorts.len()
            && s[i] is I64 && s[i]->I64_0 == shorts[i],
        source::interior(DatumV::VecF64(doubles)) matches Some(s) && s.len() == doubles.len()
            && s[i] == DatumV::F64(doubles[i]),
        source::interior(DatumV::Json(JsonV::Array(items))) matches Some(s) && s.len()
            == items.len() && s[i] == DatumV::Json(items[i]),
        source::interior(DatumV::Partitions(parts)) matches Some(s) && s.len() == parts.len()
            && s[i] == DatumV::Partition(parts[i]),
{
}

/// What is one value is not iterated.
pub proof fn law_one_value_has_no_elements(n: u64, b: bool, x: Float64)
    ensures
        source::interior(DatumV::U64(n)) is None,
        source::interior(DatumV::Bool(b)) is None,
        source::interior(DatumV::F64(x)) is None,
        source::interior(DatumV::Nothing) is None,
{
}

// ---------------------------------------------------------------------
// Written comprehensions
// ---------------------------------------------------------------------

/// The names of a clause go with its expressions one by one; a clause of
/// one expression has it for every name.
pub proof fn law_pairs_of_a_clause(c: ClauseV, i: int)
    requires
        0 <= i < c.vars.len(),
        c.source matches ClauseSourceV::Parallel(_, exprs) ==> exprs.len() == c.vars.len(),
    ensures
        ast_legacy::clause_pairs(c).len() == c.vars.len(),
        ast_legacy::clause_pairs(c)[i].0 == c.vars[i],
        c.source matches ClauseSourceV::Single(s) ==> ast_legacy::clause_pairs(c)[i].1 == s,
        c.source matches ClauseSourceV::Parallel(_, exprs) ==> ast_legacy::clause_pairs(c)[i].1
            == exprs[i],
{
}

/// The names of two runs of clauses are those of the one and then those of
/// the other; those of one clause are its own.
pub proof fn law_names_of_clauses(a: Seq<ClauseV>, b: Seq<ClauseV>, c: ClauseV)
    ensures
        ast_legacy::names_of(a + b) == ast_legacy::names_of(a) + ast_legacy::names_of(b),
        ast_legacy::names_of(seq![c]) == c.vars,
    decreases b.len(),
{
    assert(seq![c].drop_last() =~= Seq::<ClauseV>::empty());
    assert(ast_legacy::names_of(seq![c].drop_last()) =~= Seq::<Seq<char>>::empty());
    assert(ast_legacy::names_of(seq![c]) =~= c.vars);
    if b.len() == 0 {
        assert(a + b =~= a);
        assert(ast_legacy::names_of(a) + ast_legacy::names_of(b) =~= ast_legacy::names_of(a));
    } else {
        law_names_of_clauses(a, b.drop_last(), c);
        assert((a + b).drop_last() =~= a + b.drop_last());
        assert(ast_legacy::names_of(a + b) =~= ast_legacy::names_of(a) + ast_legacy::names_of(b));
    }
}

/// Every order but the natural one and one of the user's own needs a single
/// lattice, and is named in the message by the strategy that it stands for.
pub proof fn law_orders_over_one_lattice(o: OrderV)
    ensures
        ast_legacy::lattice_order(o) is None <==> o is Lex || o is Custom,
        ast_legacy::lattice_order(o) matches Some(name) ==> (legacy_convert::order_form(
            o,
        ) matches Ok((strategy, _)) && name == strategy.text()),
{
}

/// A text is read as JSON exactly where, after white space, it begins with
/// an opening brace.
pub proof fn law_json_by_its_brace(space: Seq<char>, c: char, rest: Seq<char>)
    requires
        text_laws::blank(space),
        !chars::is_space(c),
    ensures
        text::reads_as_json(space + seq![c] + rest) <==> c == '{',
        !text::reads_as_json(space),
    decreases space.len(),
{
    let s = space + seq![c] + rest;
    if space.len() == 0 {
        assert(s[0] == c);
    } else {
        assert(chars::is_space(space[0]));
        assert(s[0] == space[0]);
        assert(s.drop_first() =~= space.drop_first() + seq![c] + rest);
        assert forall|i: int| 0 <= i < space.drop_first().len() implies chars::is_space(
            #[trigger] space.drop_first()[i],
        ) by {
            assert(space.drop_first()[i] == space[i + 1]);
        }
        law_json_by_its_brace(space.drop_first(), c, rest);
    }
}

} // verus!
