//! What a comprehension is, as it was written.
use super::legacy_convert;
use super::legacy_convert::ConvertErrorV;
use super::parse;
use super::source_parser;
use crate::chars;
use crate::comprehension::ast::CompV;
use crate::comprehension::ast_legacy;
use crate::comprehension::ast_legacy::{ClauseSourceV, ClauseV, OrderV, ShellOrigin, WrittenV};
use crate::comprehension::strategy::StrategyName;
use vstd::prelude::*;

verus! {

/// Whether a text is a word followed by nothing, or by something that is
/// set off from it.
pub open spec fn first_word(text: Seq<char>, word: Seq<char>) -> bool {
    &&& chars::begins(text, word)
    &&& text.len() > word.len() ==> text[word.len() as int] == '/' || text[word.len() as int] == ' '
}

/// The number that an order is written with.
pub open spec fn written_count(o: OrderV) -> Option<usize> {
    match o {
        OrderV::Lex(n) => n,
        OrderV::ReverseLex(n) => n,
        OrderV::Diagonal(n) => n,
        OrderV::Antidiagonal(n) => n,
        OrderV::Extrema(n) => n,
        OrderV::Shells(_, n) => n,
        OrderV::Halton(n) => n,
        OrderV::Sobol(n) => n,
        OrderV::Lhs(n, _) => n,
        OrderV::Custom(_) => None,
    }
}

proof fn lemma_first_word(word: Seq<char>, rest: Seq<char>)
    requires
        rest.len() > 0 ==> rest[0] == '/' || rest[0] == ' ',
    ensures
        first_word(word + rest, word),
{
    let text = word + rest;
    assert(text.subrange(0, word.len() as int) =~= word);
    if rest.len() > 0 {
        assert(text[word.len() as int] == rest[0]);
    }
}

proof fn lemma_count_suffix(n: Option<usize>)
    ensures
        ast_legacy::count_suffix(n).len() > 0 ==> ast_legacy::count_suffix(n)[0] == '/',
{
    reveal_strlit("/");
}

/// The strategy that an order converts to has the name that the order is
/// written with, and keeps as many tuples as it is written with. Only an
/// order of the user's does not convert.
pub proof fn law_order_keeps_its_name(o: OrderV)
    ensures
        legacy_convert::order_form(o) is Ok <==> !(o is Custom),
        legacy_convert::order_form(o) matches Ok((strategy, truncation)) ==> {
            &&& first_word(ast_legacy::order_text(o), strategy.text())
            &&& truncation is Some <==> written_count(o) is Some
            &&& truncation matches Some(k) ==> k == written_count(o)->0
        },
        o matches OrderV::Custom(f) ==> legacy_convert::order_form(o) == Err::<
            (StrategyName, Option<u64>),
            ConvertErrorV,
        >(ConvertErrorV::CustomOrderingRemoved(f)),
{
    reveal_strlit("");
    reveal_strlit("/center");
    reveal_strlit("/corner");
    reveal_strlit(" seed=");
    lemma_count_suffix(written_count(o));
    match o {
        OrderV::Lex(n) => lemma_first_word("lex"@, ast_legacy::count_suffix(n)),
        OrderV::ReverseLex(n) => lemma_first_word("reverse_lex"@, ast_legacy::count_suffix(n)),
        OrderV::Diagonal(n) => lemma_first_word("diagonal"@, ast_legacy::count_suffix(n)),
        OrderV::Antidiagonal(n) => lemma_first_word("antidiagonal"@, ast_legacy::count_suffix(n)),
        OrderV::Extrema(n) => lemma_first_word("extrema"@, ast_legacy::count_suffix(n)),
        OrderV::Shells(origin, n) => {
            let mid = match origin {
                ShellOrigin::Outer => ""@,
                ShellOrigin::Center => "/center"@,
                ShellOrigin::Corner => "/corner"@,
            };
            let rest = mid + ast_legacy::count_suffix(n);
            if mid.len() > 0 {
                assert(rest[0] == mid[0]);
            } else {
                assert(rest =~= ast_legacy::count_suffix(n));
            }
            assert(ast_legacy::order_text(o) =~= "shells"@ + rest);
            lemma_first_word("shells"@, rest);
        },
        OrderV::Halton(n) => lemma_first_word("halton"@, ast_legacy::count_suffix(n)),
        OrderV::Sobol(n) => lemma_first_word("sobol"@, ast_legacy::count_suffix(n)),
        OrderV::Lhs(n, seed) => {
            let tail = match seed {
                Some(k) => " seed="@ + chars::decimal(k as nat),
                None => Seq::empty(),
            };
            let rest = ast_legacy::count_suffix(n) + tail;
            if ast_legacy::count_suffix(n).len() > 0 {
                assert(rest[0] == '/');
            } else {
                assert(rest =~= tail);
            }
            assert(ast_legacy::order_text(o) =~= "lhs"@ + rest);
            lemma_first_word("lhs"@, rest);
        },
        OrderV::Custom(_) => {},
    }
}

// ---------------------------------------------------------------------
// Reading orders
// ---------------------------------------------------------------------

/// Whether a text is made of small letters and underscores.
pub open spec fn lettered(s: Seq<char>) -> bool {
    s.len() > 0 && forall|i: int|
        0 <= i < s.len() ==> ('a' <= #[trigger] s[i] <= 'z') || s[i] == '_'
}

proof fn lemma_slash_at(s: Seq<char>, from: int, at: int)
    requires
        0 <= from <= at <= s.len(),
        forall|i: int| from <= i < at ==> s[i] != '/',
        at < s.len() ==> s[at] == '/',
    ensures
        parse::next_slash(s, from) == at,
    decreases at - from,
{
    if from < at {
        lemma_slash_at(s, from + 1, at);
    }
}

proof fn lemma_no_seed(s: Seq<char>, from: int)
    requires
        0 <= from,
        forall|i: int| 0 <= i < s.len() ==> s[i] != ' ',
    ensures
        parse::seed_at(s, from) is None,
    decreases s.len() - from,
{
    reveal_strlit(" seed=");
    if from < s.len() {
        if chars::stands_at(s, from, " seed="@) {
            assert(s.subrange(from, from + 6)[0] == s[from]);
        }
        lemma_no_seed(s, from + 1);
    }
}

proof fn lemma_seed_reached(s: Seq<char>, from: int, at: int)
    requires
        0 <= from <= at < s.len(),
        forall|i: int| 0 <= i < at ==> s[i] != ' ',
        chars::stands_at(s, at, " seed="@),
    ensures
        parse::seed_at(s, from) == Some(at),
    decreases at - from,
{
    reveal_strlit(" seed=");
    if from < at {
        if chars::stands_at(s, from, " seed="@) {
            assert(s.subrange(from, from + 6)[0] == s[from]);
        }
        lemma_seed_reached(s, from + 1, at);
    }
}

/// A word with a number behind a slash is split there.
proof fn lemma_split(word: Seq<char>, n: Option<usize>)
    requires
        lettered(word),
    ensures
        ({
            let s = word + ast_legacy::count_suffix(n);
            &&& parse::before_slash(s) == word
            &&& parse::count_of(parse::after_slash(s)) == Some(n)
            &&& forall|i: int| 0 <= i < s.len() ==> #[trigger] s[i] != ' ' && s[i] != ')'
            &&& chars::trim(s) == s
            &&& !chars::is_space(s.last())
        }),
{
    let s = word + ast_legacy::count_suffix(n);
    let at = word.len() as int;
    reveal_strlit("/");
    match n {
        Some(k) => {
            chars::law_decimal_reads_back(k as u64);
            chars::lemma_decimal_digits(k as nat);
            let d = chars::decimal(k as nat);
            assert(s[at] == '/');
            assert(s.skip(at + 1) =~= d);
            assert forall|i: int| 0 <= i < s.len() implies #[trigger] s[i] != ' ' && s[i] != ')'
                && !chars::is_space(s[i]) by {
                if i > at {
                    assert(s[i] == d[i - at - 1]);
                    assert(chars::is_digit(d[i - at - 1]));
                } else if i < at {
                    assert(s[i] == word[i]);
                }
            }
        },
        None => {
            assert(s =~= word);
            assert forall|i: int| 0 <= i < s.len() implies #[trigger] s[i] != ' ' && s[i] != ')'
                && !chars::is_space(s[i]) by {
                assert(s[i] == word[i]);
            }
        },
    }
    assert forall|i: int| 0 <= i < at implies s[i] != '/' by {
        assert(s[i] == word[i]);
    }
    lemma_slash_at(s, 0, at);
    assert(s.take(at) =~= word);
    assert(s[0] == word[0]);
    assert(!chars::is_space(s[0]));
    assert(!chars::is_space(s[s.len() - 1]));
}

/// A word with a number behind a slash is read by its word.
proof fn lemma_read_plain(word: Seq<char>, n: Option<usize>)
    requires
        lettered(word),
    ensures
        parse::order_of(word + ast_legacy::count_suffix(n)) == parse::plain_order(
            word,
            parse::after_slash(word + ast_legacy::count_suffix(n)),
        ),
        parse::count_of(parse::after_slash(word + ast_legacy::count_suffix(n))) == Some(n),
{
    let s = word + ast_legacy::count_suffix(n);
    lemma_split(word, n);
    assert(s[s.len() - 1] != ')');
    assert forall|i: int| 0 <= i < s.len() implies s[i] != ' ' by {
        assert(s[i] != ' ' && s[i] != ')');
    }
    lemma_no_seed(s, 0);
}

/// The names of the orders, in letters, no two of them alike.
proof fn lemma_order_words()
    ensures
        lettered("lex"@),
        lettered("reverse_lex"@),
        lettered("diagonal"@),
        lettered("antidiagonal"@),
        lettered("extrema"@),
        lettered("shells"@),
        lettered("halton"@),
        lettered("sobol"@),
        lettered("lhs"@),
        lettered("center"@),
        lettered("corner"@),
        "lex"@.len() == 3,
        "reverse_lex"@.len() == 11,
        "diagonal"@.len() == 8,
        "antidiagonal"@.len() == 12,
        "extrema"@.len() == 7,
        "shells"@.len() == 6,
        "halton"@.len() == 6,
        "sobol"@.len() == 5,
        "lhs"@.len() == 3,
        "lex"@[1] == 'e',
        "lhs"@[1] == 'h',
        "shells"@[0] == 's',
        "halton"@[0] == 'h',
        "center"@[1] == 'e',
        "corner"@[1] == 'o',
{
    reveal_strlit("lex");
    reveal_strlit("reverse_lex");
    reveal_strlit("diagonal");
    reveal_strlit("antidiagonal");
    reveal_strlit("extrema");
    reveal_strlit("shells");
    reveal_strlit("halton");
    reveal_strlit("sobol");
    reveal_strlit("lhs");
    reveal_strlit("center");
    reveal_strlit("corner");
}

/// A shell order is read back.
proof fn lemma_shells_read(origin: ShellOrigin, n: Option<usize>)
    ensures
        parse::order_of(ast_legacy::order_text(OrderV::Shells(origin, n))) == Some(
            OrderV::Shells(origin, n),
        ),
{
    lemma_order_words();
    reveal_strlit("");
    reveal_strlit("/");
    reveal_strlit("/center");
    reveal_strlit("/corner");
    let text = ast_legacy::order_text(OrderV::Shells(origin, n));
    if origin is Outer {
        assert(text =~= "shells"@ + ast_legacy::count_suffix(n));
        lemma_read_plain("shells"@, n);
        match n {
            Some(k) => {
                let d = chars::decimal(k as nat);
                chars::lemma_decimal_digits(k as nat);
                lemma_split("shells"@, n);
                lemma_slash_at(text, 0, 6);
                assert(text.skip(7) =~= d);
                assert forall|i: int| 0 <= i < d.len() implies d[i] != '/' by {
                    assert(chars::is_digit(d[i]));
                }
                lemma_slash_at(d, 0, d.len() as int);
                assert(d.take(d.len() as int) =~= d);
                assert(chars::is_digit(d[0]));
                reveal_strlit("center");
                reveal_strlit("corner");
                assert("center"@[0] == 'c' && "corner"@[0] == 'c');
            },
            None => {},
        }
    } else {
        let mid = if origin is Center {
            "center"@
        } else {
            "corner"@
        };
        let tail = mid + ast_legacy::count_suffix(n);
        lemma_split(mid, n);
        reveal_strlit("center");
        reveal_strlit("corner");
        assert("/center"@ =~= seq!['/'] + "center"@);
        assert("/corner"@ =~= seq!['/'] + "corner"@);
        assert(text =~= "shells"@ + seq!['/'] + tail);
        assert(text[6] == '/');
        assert forall|i: int| 0 <= i < 6 implies text[i] != '/' by {
            assert(text[i] == "shells"@[i]);
            assert(lettered("shells"@));
        }
        lemma_slash_at(text, 0, 6);
        assert(text.take(6) =~= "shells"@);
        assert(text.skip(7) =~= tail);
        assert forall|i: int| 0 <= i < text.len() implies text[i] != ' ' by {
            if i < 6 {
                assert(text[i] == "shells"@[i]);
            } else if i > 6 {
                assert(text[i] == tail[i - 7]);
            }
        }
        lemma_no_seed(text, 0);
        assert(text.last() == tail.last());
        assert(tail[tail.len() - 1] != ')');
        assert(text[0] == 's');
        assert(chars::trim(text) == text);
    }
}

/// The order of Latin hypercube samples by its name.
proof fn lemma_lhs_named(tail: Option<Seq<char>>, n: Option<usize>)
    requires
        parse::count_of(tail) == Some(n),
    ensures
        parse::plain_order("lhs"@, tail) == Some(OrderV::Lhs(n, None)),
{
    lemma_order_words();
}

/// A text with a seed behind is cut where the seed stands.
proof fn lemma_seed_cut(head: Seq<char>, d: Seq<char>)
    requires
        head.len() > 0,
        forall|i: int| 0 <= i < head.len() ==> #[trigger] head[i] != ' ' && head[i] != ')',
        !chars::is_space(head[0]),
        d.len() > 0,
        chars::all_digits(d),
    ensures
        ({
            let text = head + " seed="@ + d;
            &&& chars::trim(text) == text
            &&& text.last() != ')'
            &&& parse::seed_at(text, 0) == Some(head.len() as int)
            &&& text.take(head.len() as int) == head
            &&& text.skip(head.len() as int + 6) == d
        }),
{
    reveal_strlit(" seed=");
    let text = head + " seed="@ + d;
    let at = head.len() as int;
    assert(text.last() == d.last());
    assert(chars::is_digit(d[d.len() - 1]));
    assert(text[0] == head[0]);
    assert(chars::trim(text) == text);
    assert(text.subrange(at, at + 6) =~= " seed="@);
    assert forall|i: int| 0 <= i < at implies text[i] != ' ' by {
        assert(text[i] == head[i]);
    }
    lemma_seed_reached(text, 0, at);
    assert(text.take(at) =~= head);
    assert(text.skip(at + 6) =~= d);
}

/// A sampling order with a seed is read back.
proof fn lemma_seeded_read(n: Option<usize>, seed: u64)
    ensures
        parse::order_of(ast_legacy::order_text(OrderV::Lhs(n, Some(seed)))) == Some(
            OrderV::Lhs(n, Some(seed)),
        ),
{
    reveal_strlit("lhs");
    assert(lettered("lhs"@));
    lemma_split("lhs"@, n);
    let head = "lhs"@ + ast_legacy::count_suffix(n);
    let d = chars::decimal(seed as nat);
    chars::law_decimal_reads_back(seed);
    chars::lemma_decimal_digits(seed as nat);
    let text = ast_legacy::order_text(OrderV::Lhs(n, Some(seed)));
    assert(head[0] == 'l');
    lemma_seed_cut(head, d);
    assert(text =~= head + " seed="@ + d);
    lemma_lhs_named(parse::after_slash(head), n);
}

/// An order is read back from its text.
pub proof fn law_order_reads_back(o: OrderV)
    ensures
        parse::order_of(ast_legacy::order_text(o)) == Some(o),
{
    lemma_order_words();
    match o {
        OrderV::Lex(n) => lemma_read_plain("lex"@, n),
        OrderV::ReverseLex(n) => lemma_read_plain("reverse_lex"@, n),
        OrderV::Diagonal(n) => lemma_read_plain("diagonal"@, n),
        OrderV::Antidiagonal(n) => lemma_read_plain("antidiagonal"@, n),
        OrderV::Extrema(n) => lemma_read_plain("extrema"@, n),
        OrderV::Halton(n) => lemma_read_plain("halton"@, n),
        OrderV::Sobol(n) => lemma_read_plain("sobol"@, n),
        OrderV::Shells(origin, n) => lemma_shells_read(origin, n),
        OrderV::Lhs(n, seed) => match seed {
            Some(k) => lemma_seeded_read(n, k),
            None => {
                assert("lhs"@ + ast_legacy::count_suffix(n) + Seq::<char>::empty() =~= "lhs"@
                    + ast_legacy::count_suffix(n));
                lemma_read_plain("lhs"@, n);
            },
        },
        OrderV::Custom(f) => {
            reveal_strlit("custom(");
            reveal_strlit("custom");
            reveal_strlit("(");
            reveal_strlit(")");
            let text = ast_legacy::order_text(o);
            assert(text[0] == 'c' && text.last() == ')');
            assert(chars::trim(text) == text);
            assert("custom"@ + "("@ =~= "custom("@);
            assert(text.subrange(0, 7) =~= "custom("@);
            assert(text.subrange(7, text.len() - 1) =~= f);
        },
    }
}

// ---------------------------------------------------------------------
// The parts of a written comprehension
// ---------------------------------------------------------------------

/// A written filter is put on what the comprehension is without it, and a
/// written order on what it is without that: the filter first.
pub proof fn law_filter_then_order(w: WrittenV)
    ensures
        ({
            let bare = legacy_convert::algebra_form(WrittenV { filter: None, order: None, ..w });
            let unordered = legacy_convert::algebra_form(WrittenV { order: None, ..w });
            let whole = legacy_convert::algebra_form(w);
            &&& bare is Err ==> whole == bare
            &&& bare is Ok ==> match w.filter {
                Some(p) => unordered == Ok::<CompV, ConvertErrorV>(
                    CompV::Filter(Box::new(bare->Ok_0), p),
                ),
                None => unordered == bare,
            }
            &&& (bare is Ok && whole is Ok && w.order is Some) ==> {
                &&& whole->Ok_0 is Order
                &&& *whole->Ok_0->Order_0 == unordered->Ok_0
                &&& first_word(ast_legacy::order_text(w.order->0), whole->Ok_0->Order_1.text())
                &&& whole->Ok_0->Order_2 is Some <==> written_count(w.order->0) is Some
                &&& whole->Ok_0->Order_2 matches Some(k) ==> k == written_count(w.order->0)->0
            }
            &&& w.order is None ==> whole == unordered
        }),
{
    match w.order {
        Some(o) => law_order_keeps_its_name(o),
        None => {},
    }
}

/// A written clause of several names is a zip with a clause for each name
/// over its own expression, in their order and in the mode it is written
/// with.
pub proof fn law_parallel_clause(vars: Seq<Seq<char>>, mode: ast_legacy::ZipMode, texts: Seq<Seq<char>>)
    requires
        vars.len() == texts.len(),
        legacy_convert::clause_form(
            ClauseV { vars, source: ClauseSourceV::Parallel(mode, texts) },
        ) is Ok,
    ensures
        ({
            let r = legacy_convert::clause_form(
                ClauseV { vars, source: ClauseSourceV::Parallel(mode, texts) },
            )->Ok_0;
            &&& r is Zip
            &&& r->Zip_0.len() == vars.len()
            &&& forall|k: int|
                0 <= k < vars.len() ==> Ok::<CompV, ConvertErrorV>(#[trigger] r->Zip_0[k])
                    == legacy_convert::clause_form(
                    ClauseV { vars: seq![vars[k]], source: ClauseSourceV::Single(texts[k]) },
                )
            &&& r->Zip_1 is Strict <==> mode is Strict
            &&& r->Zip_1 is Truncate <==> mode is Truncate
            &&& r->Zip_1 is Cycle <==> mode is Cycle
        }),
{
    lemma_bound_clauses(vars, texts);
}

proof fn lemma_bound_clauses(vars: Seq<Seq<char>>, texts: Seq<Seq<char>>)
    requires
        vars.len() == texts.len(),
        legacy_convert::bound_clauses(vars, texts) is Ok,
    ensures
        ({
            let out = legacy_convert::bound_clauses(vars, texts)->Ok_0;
            &&& out.len() == vars.len()
            &&& forall|k: int|
                0 <= k < vars.len() ==> Ok::<CompV, ConvertErrorV>(#[trigger] out[k])
                    == legacy_convert::bound_clause(vars[k], texts[k])
        }),
    decreases vars.len(),
{
    if vars.len() > 0 {
        lemma_bound_clauses(vars.drop_last(), texts.drop_last());
    }
}

/// A written clause of one name binds that name to the source that its
/// expression stands for.
pub proof fn law_single_clause(var: Seq<char>, text: Seq<char>)
    ensures
        legacy_convert::clause_form(
            ClauseV { vars: seq![var], source: ClauseSourceV::Single(text) },
        ) == match source_parser::source_of(text) {
            Some(s) => Ok::<CompV, ConvertErrorV>(CompV::Clause(var, s)),
            None => Err(
                ConvertErrorV::SourceParse(
                    var,
                    text,
                    source_parser::SourceParseError::Empty,
                ),
            ),
        },
{
}

/// Written clauses that combine are a product of what each of them is, in
/// their order; a single one is itself.
pub proof fn law_written_product(clauses: Seq<ClauseV>)
    requires
        legacy_convert::product_form(clauses) is Ok,
    ensures
        ({
            let r = legacy_convert::product_form(clauses)->Ok_0;
            &&& clauses.len() == 1 ==> Ok::<CompV, ConvertErrorV>(r) == legacy_convert::clause_form(
                clauses[0],
            )
            &&& clauses.len() != 1 ==> {
                &&& r is Cartesian
                &&& r->Cartesian_0.len() == clauses.len()
                &&& forall|k: int|
                    0 <= k < clauses.len() ==> Ok::<CompV, ConvertErrorV>(
                        #[trigger] r->Cartesian_0[k],
                    ) == legacy_convert::clause_form(clauses[k])
            }
        }),
{
    lemma_clause_forms(clauses);
}

proof fn lemma_clause_forms(s: Seq<ClauseV>)
    requires
        legacy_convert::clause_forms(s) is Ok,
    ensures
        ({
            let out = legacy_convert::clause_forms(s)->Ok_0;
            &&& out.len() == s.len()
            &&& forall|k: int|
                0 <= k < s.len() ==> Ok::<CompV, ConvertErrorV>(#[trigger] out[k])
                    == legacy_convert::clause_form(s[k])
        }),
    decreases s.len(),
{
    if s.len() > 0 {
        lemma_clause_forms(s.drop_last());
    }
}

/// Written sub-spaces are a union of what each of them is, in their order;
/// a single one is itself.
pub proof fn law_written_union(subspaces: Seq<Seq<ClauseV>>)
    requires
        legacy_convert::union_form(subspaces) is Ok,
    ensures
        ({
            let r = legacy_convert::union_form(subspaces)->Ok_0;
            &&& subspaces.len() == 1 ==> Ok::<CompV, ConvertErrorV>(r)
                == legacy_convert::product_form(subspaces[0])
            &&& subspaces.len() != 1 ==> {
                &&& r is Union
                &&& r->Union_0.len() == subspaces.len()
                &&& forall|k: int|
                    0 <= k < subspaces.len() ==> Ok::<CompV, ConvertErrorV>(
                        #[trigger] r->Union_0[k],
                    ) == legacy_convert::product_form(subspaces[k])
            }
        }),
{
    lemma_subspace_forms(subspaces);
}

proof fn lemma_subspace_forms(s: Seq<Seq<ClauseV>>)
    requires
        legacy_convert::subspace_forms(s) is Ok,
    ensures
        ({
            let out = legacy_convert::subspace_forms(s)->Ok_0;
            &&& out.len() == s.len()
            &&& forall|k: int|
                0 <= k < s.len() ==> Ok::<CompV, ConvertErrorV>(#[trigger] out[k])
                    == legacy_convert::product_form(s[k])
        }),
    decreases s.len(),
{
    if s.len() > 0 {
        lemma_subspace_forms(s.drop_last());
    }
}

/// The text of a comprehension is that of its clauses, with its filter
/// behind `where` and its order behind `order`.
pub proof fn law_written_text(w: WrittenV, p: Seq<char>, o: OrderV)
    ensures
        ({
            let bare = ast_legacy::written_text(WrittenV { filter: None, order: None, ..w });
            &&& ast_legacy::written_text(WrittenV { filter: Some(p), order: None, ..w }) == bare
                + " where "@ + p
            &&& ast_legacy::written_text(WrittenV { filter: None, order: Some(o), ..w }) == bare
                + " order "@ + ast_legacy::order_text(o)
            &&& ast_legacy::written_text(WrittenV { filter: Some(p), order: Some(o), ..w }) == bare
                + " where "@ + p + " order "@ + ast_legacy::order_text(o)
        }),
{
    let none = Seq::<char>::empty();
    let bare = ast_legacy::written_text(WrittenV { filter: None, order: None, ..w });
    let a = ast_legacy::written_text(WrittenV { filter: Some(p), order: None, ..w });
    let b = ast_legacy::written_text(WrittenV { filter: None, order: Some(o), ..w });
    let c = ast_legacy::written_text(WrittenV { filter: Some(p), order: Some(o), ..w });
    assert(a =~= bare + " where "@ + p);
    assert(b =~= bare + " order "@ + ast_legacy::order_text(o));
    assert(c =~= bare + " where "@ + p + " order "@ + ast_legacy::order_text(o));
}

} // verus!
