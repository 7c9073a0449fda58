//! How what stands in a hole is read.
use crate::chars;
use crate::dsl::ast::Span;
use crate::dsl::template::HoleV;
use crate::dsl::tile;
use crate::dsl::tile::Grammar;
use crate::value;
use vstd::prelude::*;

verus! {

/// Whether a text has neither brackets nor quotes.
spec fn tame(s: Seq<char>) -> bool {
    forall|i: int|
        0 <= i < s.len() ==> tile::deeper(#[trigger] s[i], 0) == 0 && tile::opens_quote(s[i]) is None
}

/// Whether a text has a character nowhere from a place on.
spec fn lacks(s: Seq<char>, c: char, from: int) -> bool {
    forall|i: int| from <= i < s.len() ==> #[trigger] s[i] != c
}

proof fn lemma_none_left(s: Seq<char>, c: char, pos: int, found: Option<int>)
    requires
        tame(s),
        0 <= pos <= s.len(),
        lacks(s, c, pos),
    ensures
        tile::last_top(s, c, pos, 0, None, found) == found,
    decreases s.len() - pos,
{
    if pos < s.len() {
        assert(tile::deeper(s[pos], 0) == 0 && s[pos] != c);
        lemma_none_left(s, c, pos + 1, found);
    }
}

proof fn lemma_last_found(s: Seq<char>, c: char, pos: int, at: int, found: Option<int>)
    requires
        tame(s),
        0 <= pos <= at < s.len(),
        s[at] == c,
        lacks(s, c, at + 1),
    ensures
        tile::last_top(s, c, pos, 0, None, found) == Some(at),
    decreases s.len() - pos,
{
    assert(tile::deeper(s[pos], 0) == 0);
    if pos == at {
        lemma_none_left(s, c, pos + 1, Some(pos));
    } else if s[pos] == c {
        lemma_last_found(s, c, pos + 1, at, Some(pos));
    } else {
        lemma_last_found(s, c, pos + 1, at, found);
    }
}

/// Whether a character may stand in a name or in a format.
spec fn plain(c: char) -> bool {
    chars::is_word(c) || ".<>^-+#0_"@.contains(c)
}

proof fn lemma_plain(c: char)
    requires
        plain(c),
    ensures
        !chars::is_space(c),
        c != ':',
        c != '|',
        c != '!',
        tile::deeper(c, 0) == 0,
        tile::opens_quote(c) is None,
{
    reveal_strlit(".<>^-+#0_");
    if ".<>^-+#0_"@.contains(c) {
        let i = choose|i: int| 0 <= i < ".<>^-+#0_"@.len() && ".<>^-+#0_"@[i] == c;
        assert(i == 0 || i == 1 || i == 2 || i == 3 || i == 4 || i == 5 || i == 6 || i == 7 || i
            == 8);
    }
}

proof fn lemma_trimmed(s: Seq<char>)
    requires
        s.len() > 0,
        !chars::is_space(s[0]),
        !chars::is_space(s.last()),
    ensures
        chars::trim(s) == s,
{
}

/// A hole as it is written: an expression, behind a colon the type and
/// behind a bar the format, where they are given, and a mark where it is
/// raw.
pub open spec fn hole_text(
    x: Seq<char>,
    ty: Option<Seq<char>>,
    format: Option<Seq<char>>,
    raw: bool,
) -> Seq<char> {
    let typed = match ty {
        Some(kw) => x + seq![':'] + kw,
        None => x,
    };
    let formatted = match format {
        Some(f) => typed + seq!['|'] + f,
        None => typed,
    };
    if raw {
        formatted.push('!')
    } else {
        formatted
    }
}

/// What is written in a hole is read as it is written: its expression, its
/// type, its format, and whether it is raw. The expression is a name here.
pub proof fn law_hole_is_read<G: Grammar>(
    g: G,
    x: Seq<char>,
    ty: Option<Seq<char>>,
    format: Option<Seq<char>>,
    raw: bool,
    span: Span,
)
    requires
        x.len() > 0,
        tile::word_like(x),
        ty matches Some(kw) ==> kw.len() > 0 && tile::word_like(kw) && value::port_of_keyword(
            kw,
        ) is Some,
        format matches Some(f) ==> f.len() > 0 && tile::format_like(f),
    ensures
        ({
            let text = hole_text(x, ty, format, raw);
            match g.expression(x) {
                Ok(r) => tile::hole_of(g, text, span) == Ok::<HoleV, Seq<char>>(
                    HoleV { text, expr: r.expr, decl_type: ty, format, raw, span },
                ),
                Err(_) => tile::hole_of(g, text, span) is Err,
            }
        }),
{
    let typed = match ty {
        Some(kw) => x + seq![':'] + kw,
        None => x,
    };
    let whole = match format {
        Some(f) => typed + seq!['|'] + f,
        None => typed,
    };
    let text = hole_text(x, ty, format, raw);
    let n = x.len() as int;
    let m = typed.len() as int;
    assert forall|i: int| 0 <= i < typed.len() implies (plain(#[trigger] typed[i]) || (typed[i]
        == ':' && i == n)) by {
        if i < n {
            assert(typed[i] == x[i]);
        } else if i > n {
            assert(typed[i] == ty->Some_0[i - n - 1]);
        }
    }
    assert forall|i: int| 0 <= i < whole.len() implies (plain(#[trigger] whole[i]) || (whole[i]
        == ':' && i == n && ty is Some) || (whole[i] == '|' && i == m && format is Some)) by {
        if i < m {
            assert(whole[i] == typed[i]);
        } else if i > m {
            assert(whole[i] == format->Some_0[i - m - 1]);
        }
    }
    assert forall|i: int| 0 <= i < typed.len() implies tile::deeper(#[trigger] typed[i], 0) == 0
        && tile::opens_quote(typed[i]) is None by {
        if plain(typed[i]) {
            lemma_plain(typed[i]);
        }
    }
    assert(tame(typed));
    assert forall|i: int| 0 <= i < whole.len() implies tile::deeper(#[trigger] whole[i], 0) == 0
        && tile::opens_quote(whole[i]) is None by {
        if plain(whole[i]) {
            lemma_plain(whole[i]);
        }
    }
    assert(tame(whole));
    // The ends are no white space.
    assert(plain(x[0]));
    lemma_plain(x[0]);
    assert(plain(x.last()));
    lemma_plain(x.last());
    assert(whole[0] == x[0] && typed[0] == x[0]);
    match ty {
        Some(kw) => {
            assert(typed.last() == kw.last());
            assert(plain(kw[kw.len() - 1]));
            lemma_plain(kw.last());
            assert(plain(kw[0]));
            lemma_plain(kw[0]);
            lemma_trimmed(kw);
        },
        None => {},
    }
    match format {
        Some(f) => {
            assert(whole.last() == f.last());
            assert(plain(f[f.len() - 1]));
            lemma_plain(f.last());
            assert(plain(f[0]));
            lemma_plain(f[0]);
            lemma_trimmed(f);
        },
        None => {},
    }
    lemma_trimmed(x);
    lemma_trimmed(typed);
    lemma_trimmed(whole);
    if raw {
        assert(text.last() == '!');
        assert(text[0] == whole[0]);
        lemma_trimmed(text);
        assert(text.drop_last() =~= whole);
    } else {
        assert(text == whole);
    }
    // The format stands behind the last bar.
    match format {
        Some(f) => {
            assert(lacks(whole, '|', m + 1)) by {
                assert forall|i: int| m + 1 <= i < whole.len() implies #[trigger] whole[i]
                    != '|' by {
                    assert(plain(whole[i]));
                    lemma_plain(whole[i]);
                }
            }
            lemma_last_found(whole, '|', 0, m, None);
            assert(whole.take(m) =~= typed);
            assert(whole.skip(m + 1) =~= f);
            assert(tile::format_split(whole) == (typed, Some(f)));
        },
        None => {
            assert(lacks(whole, '|', 0)) by {
                assert forall|i: int| 0 <= i < whole.len() implies #[trigger] whole[i] != '|' by {
                    if plain(whole[i]) {
                        lemma_plain(whole[i]);
                    }
                }
            }
            lemma_none_left(whole, '|', 0, None);
            assert(tile::format_split(whole) == (typed, None::<Seq<char>>));
        },
    }
    // The type stands behind the last colon.
    match ty {
        Some(kw) => {
            assert(lacks(typed, ':', n + 1)) by {
                assert forall|i: int| n + 1 <= i < typed.len() implies #[trigger] typed[i]
                    != ':' by {
                    assert(plain(typed[i]));
                    lemma_plain(typed[i]);
                }
            }
            assert(typed[n] == ':');
            lemma_last_found(typed, ':', 0, n, None);
            assert(typed.take(n) =~= x);
            assert(typed.skip(n + 1) =~= kw);
            assert(tile::type_split(typed) == (x, Some(kw)));
        },
        None => {
            assert(lacks(typed, ':', 0)) by {
                assert forall|i: int| 0 <= i < typed.len() implies #[trigger] typed[i] != ':' by {
                    assert(typed[i] == x[i]);
                    assert(plain(x[i]));
                    lemma_plain(x[i]);
                }
            }
            lemma_none_left(typed, ':', 0, None);
            assert(tile::type_split(typed) == (x, None::<Seq<char>>));
        },
    }
}

} // verus!
