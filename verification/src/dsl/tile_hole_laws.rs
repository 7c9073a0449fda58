//! How holes are handed to a template, and how texts stand in programs.
use crate::chars;
use crate::dsl::ast::{ArgV, ExprV};
use crate::dsl::binding;
use crate::dsl::binding_laws::{part_names, parts_text, PartV};
use crate::dsl::template::HoleV;
use crate::dsl::tile;
use crate::dsl::tile_lower;
use crate::dsl::tile_lower::{FrameV, LowerV, TileTools};
use crate::dsl::tile_ops::{EncodingV, HoleSourceV};
use crate::dsl::tile_source;
use crate::value;
use vstd::prelude::*;

verus! {

// ---------------------------------------------------------------------
// Where a hole stands
// ---------------------------------------------------------------------

/// How many quotes there are in a text.
pub open spec fn quotes(s: Seq<char>) -> nat
    decreases s.len(),
{
    if s.len() == 0 {
        0
    } else {
        quotes(s.drop_first()) + if s[0] == '"' {
            1nat
        } else {
            0nat
        }
    }
}

/// Every quote of a text without backslashes opens or closes a string: the
/// text ends inside one where it began inside one and has an even number of
/// quotes, or began outside and has an odd number.
pub proof fn law_quotes_open_and_close(s: Seq<char>, inside: bool)
    requires
        forall|i: int| 0 <= i < s.len() ==> #[trigger] s[i] != '\\',
    ensures
        tile_lower::string_state(s, 0, inside, false) == (inside != (quotes(s) % 2 == 1)),
{
    lemma_quotes(s, 0, inside);
    assert(s.skip(0) =~= s);
}

proof fn lemma_quotes(s: Seq<char>, from: int, inside: bool)
    requires
        0 <= from <= s.len(),
        forall|i: int| 0 <= i < s.len() ==> #[trigger] s[i] != '\\',
    ensures
        tile_lower::string_state(s, from, inside, false) == (inside != (quotes(s.skip(from)) % 2
            == 1)),
    decreases s.len() - from,
{
    let rest = s.skip(from);
    if from < s.len() {
        assert(rest.drop_first() =~= s.skip(from + 1));
        assert(rest[0] == s[from]);
        lemma_quotes(s, from + 1, if s[from] == '"' {
            !inside
        } else {
            inside
        });
    }
}

/// Inside a string a backslash takes its meaning from what follows it.
pub proof fn law_backslash_hides(c: char, s: Seq<char>)
    ensures
        tile_lower::string_state(seq!['\\', c] + s, 0, true, false) == tile_lower::string_state(
            s,
            0,
            true,
            false,
        ),
{
    let t = seq!['\\', c] + s;
    assert(t[0] == '\\');
    assert(tile_lower::string_state(t, 0, true, false) == tile_lower::string_state(t, 1, true, true));
    assert(tile_lower::string_state(t, 1, true, true) == tile_lower::string_state(t, 2, true, false));
    lemma_state_behind(seq!['\\', c], s, 0, true, false);
}

proof fn lemma_state_behind(a: Seq<char>, b: Seq<char>, from: int, inside: bool, escaped: bool)
    requires
        0 <= from <= b.len(),
    ensures
        tile_lower::string_state(a + b, a.len() + from, inside, escaped)
            == tile_lower::string_state(b, from, inside, escaped),
    decreases b.len() - from,
{
    if from < b.len() {
        let s = a + b;
        assert(s[a.len() + from] == b[from]);
        if inside {
            if escaped {
                lemma_state_behind(a, b, from + 1, true, false);
            } else if b[from] == '\\' {
                lemma_state_behind(a, b, from + 1, true, true);
            } else if b[from] == '"' {
                lemma_state_behind(a, b, from + 1, false, false);
            } else {
                lemma_state_behind(a, b, from + 1, true, false);
            }
        } else {
            lemma_state_behind(a, b, from + 1, b[from] == '"', escaped);
        }
    }
}

/// A hole is written as its template is encoded and as the hole says: in a
/// string of a JSON template as a part of that string, elsewhere in one as a
/// value, in any other template as text. It is no condition.
pub proof fn law_hole_is_written_where_it_stands(f: FrameV, l: LowerV, h: HoleV)
    ensures
        ({
            let e = tile_lower::hole_encoding(f, l, h);
            &&& e.encoding == f.encoding
            &&& e.format == h.format
            &&& e.raw == h.raw
            &&& e.ty == h.decl_type
            &&& !e.cond
            &&& f.encoding == "json"@ ==> (e.position is InString <==> l.in_string) && (
            e.position is Value <==> !l.in_string)
            &&& f.encoding != "json"@ ==> e.position is Text
            &&& tile_lower::cond_encoding(f).cond
            &&& tile_lower::cond_encoding(f).encoding == f.encoding
        }),
{
}

// ---------------------------------------------------------------------
// Holes outside bodies
// ---------------------------------------------------------------------

/// The place of a name that is not there is the end; that of one that is,
/// one where it stands.
proof fn lemma_place(s: Seq<Seq<char>>, name: Seq<char>, i: int)
    requires
        0 <= i <= s.len(),
    ensures
        i <= tile_lower::place_in(s, name, i) <= s.len(),
        tile_lower::place_in(s, name, i) < s.len() ==> s[tile_lower::place_in(s, name, i)] == name,
    decreases s.len() - i,
{
    if i < s.len() && s[i] != name {
        lemma_place(s, name, i + 1);
    }
}

/// The call that encodes an expression as a text says.
pub open spec fn encoded_call(f: FrameV, e: ExprV, shown: Seq<char>) -> ExprV {
    ExprV::Call(
        "tile_encode"@,
        seq![
            ArgV { name: None, value: e },
            ArgV { name: None, value: ExprV::StringLit(shown, f.span) },
        ],
        f.span,
    )
}

/// A hole without a declared type reads the input that is named after the
/// template and the number of the hole. That name is bound to the
/// expression of the hole, encoded as the hole is; the inputs before it
/// stay where they are.
pub proof fn law_hole_reads_its_expression<T: TileTools>(
    t: T,
    f: FrameV,
    l: LowerV,
    text: Seq<char>,
    e: ExprV,
    enc: EncodingV,
)
    requires
        l.body is None,
        enc.ty is None,
        tile_lower::hole_lowered(t, f, l, text, e, enc).1 is Ok,
    ensures
        ({
            let (d, r) = tile_lower::hole_lowered(t, f, l, text, e, enc);
            let name = "__tile_"@ + f.tile + "_h"@ + chars::decimal(l.names.len());
            &&& r->Ok_0 matches HoleSourceV::Wire(i) && i < d.inputs.len() && d.inputs[i as int]
                == name
            &&& d.inputs.len() >= l.inputs.len()
            &&& d.inputs.take(l.inputs.len() as int) == l.inputs
            &&& d.names == l.names.push(name)
            &&& d.c == binding::bound(
                t,
                l.c,
                seq![name],
                encoded_call(
                    f,
                    e,
                    t.encoded(
                        EncodingV {
                            ty: Some(value::port_keyword(tile_lower::hole_type(t, l, e))),
                            ..enc
                        },
                    ),
                ),
            ).0
        }),
{
    let (d, r) = tile_lower::hole_lowered(t, f, l, text, e, enc);
    let name = tile_lower::next_name(f, l, "h"@);
    reveal_strlit("_");
    reveal_strlit("h");
    reveal_strlit("_h");
    assert(name =~= "__tile_"@ + f.tile + "_h"@ + chars::decimal(l.names.len()));
    lemma_place(l.inputs, name, 0);
    assert(d.inputs.take(l.inputs.len() as int) =~= l.inputs);
}

// ---------------------------------------------------------------------
// Texts in programs
// ---------------------------------------------------------------------

/// What a text in a string of the language stands for: a backslash and what
/// follows it are one character.
pub open spec fn unescaped(s: Seq<char>) -> Seq<char>
    decreases s.len(),
{
    if s.len() == 0 {
        Seq::empty()
    } else if s[0] == '\\' && s.len() >= 2 {
        seq![
            if s[1] == 'n' {
                '\n'
            } else if s[1] == 't' {
                '\t'
            } else {
                s[1]
            },
        ] + unescaped(s.skip(2))
    } else {
        seq![s[0]] + unescaped(s.drop_first())
    }
}

proof fn lemma_string_chars_first(s: Seq<char>)
    requires
        s.len() > 0,
    ensures
        tile_source::string_chars(s) == tile_source::string_char(s[0]) + tile_source::string_chars(
            s.drop_first(),
        ),
    decreases s.len(),
{
    let rest = s.drop_first();
    if s.len() == 1 {
        assert(s.drop_last() =~= Seq::<char>::empty());
        assert(tile_source::string_chars(s.drop_last()) =~= Seq::<char>::empty());
        assert(tile_source::string_chars(s) =~= tile_source::string_char(s[0])
            + tile_source::string_chars(rest));
    } else {
        let front = s.drop_last();
        lemma_string_chars_first(front);
        assert(front.drop_first() =~= rest.drop_last());
        assert(rest.last() == s.last());
        assert(front[0] == s[0]);
        assert((tile_source::string_char(s[0]) + tile_source::string_chars(front.drop_first()))
            + tile_source::string_char(s.last()) =~= tile_source::string_char(s[0]) + (
        tile_source::string_chars(front.drop_first()) + tile_source::string_char(s.last())));
    }
}

/// A text that was put into a string of the language stands for itself, and
/// neither a quote that would end the string nor a line end stands in it.
pub proof fn law_escaped_text_reads_back(s: Seq<char>)
    ensures
        unescaped(tile_source::string_chars(s)) == s,
        forall|i: int|
            0 <= i < tile_source::string_chars(s).len() ==> #[trigger] tile_source::string_chars(
                s,
            )[i] != '\n',
        forall|i: int|
            0 <= i < tile_source::string_chars(s).len() && #[trigger] tile_source::string_chars(
                s,
            )[i] == '"' ==> i > 0 && tile_source::string_chars(s)[i - 1] == '\\',
    decreases s.len(),
{
    let out = tile_source::string_chars(s);
    if s.len() == 0 {
        assert(unescaped(out) =~= s);
    } else {
        let rest = s.drop_first();
        law_escaped_text_reads_back(rest);
        lemma_string_chars_first(s);
        let head = tile_source::string_char(s[0]);
        let tail = tile_source::string_chars(rest);
        assert(out == head + tail);
        if head.len() == 2 {
            assert(out.skip(2) =~= tail);
        } else {
            assert(out.drop_first() =~= tail);
        }
        assert(unescaped(out) == seq![s[0]] + unescaped(tail));
        assert(seq![s[0]] + rest =~= s);
        assert forall|i: int| 0 <= i < out.len() implies #[trigger] out[i] != '\n' by {
            if i >= head.len() {
                assert(out[i] == tail[i - head.len()]);
            }
        }
        assert forall|i: int| 0 <= i < out.len() && #[trigger] out[i] == '"' implies i > 0 && out[i
            - 1] == '\\' by {
            if i >= head.len() {
                let j = i - head.len();
                assert(tail[j] == '"');
                assert(j > 0 && tail[j - 1] == '\\');
                assert(out[i - 1] == tail[j - 1]);
            }
        }
    }
}

// ---------------------------------------------------------------------
// Names in braces
// ---------------------------------------------------------------------

/// Whether a part is plain without opening a brace, or a word.
pub open spec fn worded(p: PartV) -> bool {
    match p {
        PartV::Plain(s) => forall|i: int| 0 <= i < s.len() ==> #[trigger] s[i] != '{',
        PartV::Name(n) => n.len() > 0 && forall|i: int|
            0 <= i < n.len() ==> chars::is_word(#[trigger] n[i]),
    }
}

proof fn lemma_word_end_behind(a: Seq<char>, b: Seq<char>, i: int)
    requires
        0 <= i,
    ensures
        tile::word_end(a + b, a.len() + i) == a.len() + tile::word_end(b, i),
        tile::word_end(b, i) >= i,
    decreases b.len() - i,
{
    if i < b.len() {
        assert((a + b)[a.len() + i] == b[i]);
        if chars::is_word(b[i]) {
            lemma_word_end_behind(a, b, i + 1);
        }
    }
}

proof fn lemma_names_behind(a: Seq<char>, b: Seq<char>, i: int)
    requires
        0 <= i,
    ensures
        tile_source::placeholders(a + b, a.len() + i) == tile_source::placeholders(b, i),
    decreases b.len() - i,
{
    let s = a + b;
    if i < b.len() {
        assert(s[a.len() + i] == b[i]);
        lemma_word_end_behind(a, b, i + 1);
        let j = tile::word_end(b, i + 1);
        if b[i] == '{' && i + 1 < j < b.len() && b[j] == '}' {
            assert(s[a.len() + j] == b[j]);
            assert(s.subrange(a.len() + i + 1, a.len() + j) =~= b.subrange(i + 1, j));
            lemma_names_behind(a, b, j + 1);
        } else {
            if j < b.len() {
                assert(s[a.len() + j] == b[j]);
            }
            lemma_names_behind(a, b, i + 1);
        }
    }
}

proof fn lemma_no_names(s: Seq<char>, i: int, to: int)
    requires
        0 <= i <= to <= s.len(),
        forall|k: int| i <= k < to ==> #[trigger] s[k] != '{',
    ensures
        tile_source::placeholders(s, i) == tile_source::placeholders(s, to),
    decreases to - i,
{
    if i < to {
        lemma_no_names(s, i + 1, to);
    }
}

proof fn lemma_word_ends(s: Seq<char>, i: int, to: int)
    requires
        0 <= i <= to < s.len(),
        forall|k: int| i <= k < to ==> chars::is_word(#[trigger] s[k]),
        !chars::is_word(s[to]),
    ensures
        tile::word_end(s, i) == to,
    decreases to - i,
{
    if i < to {
        lemma_word_ends(s, i + 1, to);
    }
}

/// The names in braces of a text are those that were written into it, in
/// their order.
pub proof fn law_names_in_braces(parts: Seq<PartV>)
    requires
        forall|i: int| 0 <= i < parts.len() ==> worded(#[trigger] parts[i]),
    ensures
        tile_source::placeholders(parts_text(parts), 0) == part_names(parts),
    decreases parts.len(),
{
    let s = parts_text(parts);
    if parts.len() > 0 {
        let rest = parts.drop_first();
        assert forall|i: int| 0 <= i < rest.len() implies worded(#[trigger] rest[i]) by {
            assert(rest[i] == parts[i + 1]);
        }
        law_names_in_braces(rest);
        assert(worded(parts[0]));
        let tail = parts_text(rest);
        match parts[0] {
            PartV::Plain(t) => {
                assert(s == t + tail);
                assert forall|k: int| 0 <= k < t.len() implies #[trigger] s[k] != '{' by {
                    assert(s[k] == t[k]);
                }
                lemma_no_names(s, 0, t.len() as int);
                lemma_names_behind(t, tail, 0);
                assert(Seq::<Seq<char>>::empty() + part_names(rest) =~= part_names(rest));
            },
            PartV::Name(n) => {
                let head = seq!['{'] + n + seq!['}'];
                assert(s == head + tail);
                let j = (n.len() + 1) as int;
                assert(s[0] == '{' && s[j] == '}');
                assert forall|k: int| 1 <= k < j implies chars::is_word(#[trigger] s[k]) by {
                    assert(s[k] == n[k - 1]);
                }
                lemma_word_ends(s, 1, j);
                assert(s.subrange(1, j) =~= n);
                lemma_names_behind(head, tail, 0);
                assert(head.len() == j + 1);
            },
        }
    }
}

} // verus!
