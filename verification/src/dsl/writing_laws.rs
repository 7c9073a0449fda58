//! How templates are written, as text and as documents.
use crate::chars;
use crate::comprehension::ir::comparison_laws;
use crate::dsl::ast::Span;
use crate::dsl::template::{ForSourceV, HoleV, OptionsV, PieceV, ReadingV};
use crate::dsl::tile;
use crate::dsl::tile::Grammar;
use crate::dsl::tile_structural;
use crate::dsl::tile_structural::DirectiveV;
use crate::value::JsonV;
use vstd::prelude::*;

verus! {

/// A branch is written with its condition, then what is taken where it
/// holds, then, if there is one, what is taken where it does not, behind
/// `else`.
pub proof fn law_branch_is_written(
    cond: ReadingV,
    yes: Seq<PieceV>,
    no: Seq<PieceV>,
    span: Span,
    o: OptionsV,
)
    ensures
        tile::rendered_piece(PieceV::Branch(cond, yes, None, span), o) == o.sigil + "if "@
            + cond.shown + " { "@ + tile::rendered(yes, o) + " }"@,
        tile::rendered_piece(PieceV::Branch(cond, yes, Some(no), span), o) == o.sigil + "if "@
            + cond.shown + " { "@ + tile::rendered(yes, o) + " }"@ + " "@ + o.sigil + "else { "@
            + tile::rendered(no, o) + " }"@,
{
}

/// A projection is written with its source, its separator, if it has one,
/// and its body.
pub proof fn law_projection_is_written(
    source: ForSourceV,
    sep: Seq<char>,
    body: Seq<PieceV>,
    span: Span,
    o: OptionsV,
)
    ensures
        tile::rendered_piece(PieceV::Projection(source, Some(sep), body, span), o) == o.sigil
            + "for "@ + source.text + (" sep \""@ + sep + "\""@) + " { "@ + tile::rendered(body, o)
            + " }"@,
        tile::rendered_piece(PieceV::Projection(source, None, body, span), o) =~= o.sigil + "for "@
            + source.text + " { "@ + tile::rendered(body, o) + " }"@,
{
    let p = PieceV::Projection(source, None, body, span);
    assert(tile::rendered_piece(p, o) =~= o.sigil + "for "@ + source.text + " { "@
        + tile::rendered(body, o) + " }"@);
}

/// A hole is written between its marks, and pieces one after the other.
pub proof fn law_pieces_are_written(h: HoleV, a: Seq<PieceV>, b: Seq<PieceV>, o: OptionsV)
    ensures
        tile::rendered_piece(PieceV::Hole(h), o) == o.open + h.text + o.close,
        tile::rendered(a + b, o) == tile::rendered(a, o) + tile::rendered(b, o),
    decreases b.len(),
{
    if b.len() == 0 {
        assert(a + b =~= a);
        assert(tile::rendered(a, o) + tile::rendered(b, o) =~= tile::rendered(a, o));
    } else {
        law_pieces_are_written(h, a, b.drop_last(), o);
        assert((a + b).drop_last() =~= a + b.drop_last());
        assert((a + b).last() == b.last());
        assert((tile::rendered(a, o) + tile::rendered(b.drop_last(), o)) + tile::rendered_piece(
            b.last(),
            o,
        ) =~= tile::rendered(a, o) + (tile::rendered(b.drop_last(), o) + tile::rendered_piece(
            b.last(),
            o,
        )));
    }
}

// ---------------------------------------------------------------------
// Directives in documents
// ---------------------------------------------------------------------

/// Whether options have a sigil that no white space begins.
pub open spec fn sigiled(o: OptionsV) -> bool {
    o.sigil.len() > 0 && !chars::is_space(o.sigil[0])
}

proof fn lemma_directive(word: Seq<char>, c: Seq<char>, o: OptionsV)
    requires
        sigiled(o),
        c.len() > 0,
        chars::trim(c) == c,
        word.len() > 0,
    ensures
        ({
            let s = o.sigil + word + " "@ + c;
            let rest = word + " "@ + c;
            &&& chars::trim(s) == s
            &&& chars::stands_at(s, 0, o.sigil)
            &&& s.skip(o.sigil.len() as int) == rest
            &&& tile_structural::led_by(rest, word)
            &&& chars::trim(rest.skip(word.len() as int)) == c
        }),
{
    reveal_strlit(" ");
    let s = o.sigil + word + " "@ + c;
    let rest = word + " "@ + c;
    comparison_laws::lemma_trimmed_ends(c);
    assert(s[0] == o.sigil[0]);
    assert(s.last() == c.last());
    assert(chars::trim(s) == s);
    assert(s.subrange(0, o.sigil.len() as int) =~= o.sigil);
    assert(s.skip(o.sigil.len() as int) =~= rest);
    assert(rest.subrange(0, word.len() as int) =~= word);
    assert(rest[word.len() as int] == ' ');
    let tail = rest.skip(word.len() as int);
    assert(tail =~= seq![' '] + c);
    assert((seq![' '] + c).drop_first() =~= c);
    assert(chars::trim(seq![' '] + c) == chars::trim(c));
}

/// A string of a sigil, a word and what follows it is the directive of that
/// word: `for` with its header, `if` with its condition, `else` alone.
pub proof fn law_directives_read(c: Seq<char>, o: OptionsV)
    requires
        sigiled(o),
        c.len() > 0,
        chars::trim(c) == c,
    ensures
        tile_structural::directive(o.sigil + "for"@ + " "@ + c, o) == Some(DirectiveV::For(c)),
        tile_structural::directive(o.sigil + "if"@ + " "@ + c, o) == Some(DirectiveV::If(c)),
        tile_structural::directive(o.sigil + "else"@, o) == Some(DirectiveV::Else),
{
    reveal_strlit("for");
    reveal_strlit("if");
    reveal_strlit("else");
    reveal_strlit(" ");
    lemma_directive("for"@, c, o);
    lemma_directive("if"@, c, o);
    let rest = "if"@ + " "@ + c;
    assert(rest[0] == 'i');
    if chars::stands_at(rest, 0, "for"@) {
        assert(rest.subrange(0, 3)[0] == rest[0]);
    }
    let s = o.sigil + "else"@;
    assert(s[0] == o.sigil[0]);
    assert(s.last() == 'e');
    assert(chars::trim(s) == s);
    assert(s.subrange(0, o.sigil.len() as int) =~= o.sigil);
    let e = s.skip(o.sigil.len() as int);
    assert(e =~= "else"@);
    assert(e[0] == 'e');
    if chars::stands_at(e, 0, "for"@) {
        assert(e.subrange(0, 3)[0] == e[0]);
    }
    if chars::stands_at(e, 0, "if"@) {
        assert(e.subrange(0, 2)[0] == e[0]);
    }
}

/// Whether no item of a run is `else`.
pub open spec fn without_else(items: Seq<JsonV>, o: OptionsV) -> bool {
    forall|i: int|
        0 <= i < items.len() ==> tile_structural::item_directive(#[trigger] items[i], o) != Some(
            DirectiveV::Else,
        )
}

proof fn lemma_else_at(items: Seq<JsonV>, o: OptionsV, from: int, at: int)
    requires
        0 <= from <= at <= items.len(),
        forall|i: int|
            from <= i < at ==> tile_structural::item_directive(#[trigger] items[i], o) != Some(
                DirectiveV::Else,
            ),
        at < items.len() ==> tile_structural::item_directive(items[at], o) == Some(DirectiveV::Else),
    ensures
        tile_structural::else_place(items, o, from) == at,
    decreases at - from,
{
    if from < at {
        lemma_else_at(items, o, from + 1, at);
    }
}

/// An array that `if` leads is written as a branch: what stands before
/// `else` is taken where the condition holds, what stands after it where it
/// does not.
pub proof fn law_array_branch<G: Grammar>(
    g: G,
    c: Seq<char>,
    yes: Seq<JsonV>,
    no: Seq<JsonV>,
    o: OptionsV,
)
    requires
        sigiled(o),
        c.len() > 0,
        chars::trim(c) == c,
        without_else(yes, o),
        tile_structural::items_text(g, yes, o) is Ok,
        tile_structural::items_text(g, no, o) is Ok,
    ensures
        ({
            let lead = JsonV::Text(o.sigil + "if"@ + " "@ + c);
            let other = JsonV::Text(o.sigil + "else"@);
            let a = tile_structural::items_text(g, yes, o)->Ok_0;
            let b = tile_structural::items_text(g, no, o)->Ok_0;
            &&& tile_structural::array_body(g, seq![lead] + yes, o) == Ok::<Seq<char>, Seq<char>>(
                o.sigil + "if "@ + c + " { "@ + a + " }"@,
            )
            &&& tile_structural::array_body(g, seq![lead] + yes + seq![other] + no, o) == Ok::<
                Seq<char>,
                Seq<char>,
            >(
                o.sigil + "if "@ + c + " { "@ + a + " }"@ + " "@ + o.sigil + "else { "@ + b + " }"@,
            )
        }),
{
    let lead = JsonV::Text(o.sigil + "if"@ + " "@ + c);
    let other = JsonV::Text(o.sigil + "else"@);
    law_directives_read(c, o);
    let short = seq![lead] + yes;
    assert forall|i: int| 1 <= i < short.len() implies tile_structural::item_directive(
        #[trigger] short[i],
        o,
    ) != Some(DirectiveV::Else) by {
        assert(short[i] == yes[i - 1]);
    }
    lemma_else_at(short, o, 1, short.len() as int);
    assert(short[0] == lead);
    assert(short.subrange(1, short.len() as int) =~= yes);
    let long = seq![lead] + yes + seq![other] + no;
    let k = (yes.len() + 1) as int;
    assert forall|i: int| 1 <= i < k implies tile_structural::item_directive(
        #[trigger] long[i],
        o,
    ) != Some(DirectiveV::Else) by {
        assert(long[i] == yes[i - 1]);
    }
    assert(long[k] == other);
    lemma_else_at(long, o, 1, k);
    assert(long[0] == lead);
    assert(long.subrange(1, k) =~= yes);
    assert(long.subrange(k + 1, long.len() as int) =~= no);
}

/// An array that `for` leads is written as a projection of what follows.
pub proof fn law_array_projection<G: Grammar>(g: G, h: Seq<char>, body: Seq<JsonV>, o: OptionsV)
    requires
        sigiled(o),
        h.len() > 0,
        chars::trim(h) == h,
        tile_structural::items_text(g, body, o) is Ok,
    ensures
        tile_structural::array_body(
            g,
            seq![JsonV::Text(o.sigil + "for"@ + " "@ + h)] + body,
            o,
        ) == Ok::<Seq<char>, Seq<char>>(
            o.sigil + "for "@ + h + " { "@ + tile_structural::items_text(g, body, o)->Ok_0 + " }"@,
        ),
{
    law_directives_read(h, o);
    let all = seq![JsonV::Text(o.sigil + "for"@ + " "@ + h)] + body;
    assert(all[0] == JsonV::Text(o.sigil + "for"@ + " "@ + h));
    assert(all.subrange(1, all.len() as int) =~= body);
}

/// Items are written in their order with a comma between each two, each as
/// it is written alone.
pub proof fn law_items_are_written<G: Grammar>(g: G, s: Seq<JsonV>, x: JsonV, o: OptionsV)
    requires
        tile_structural::items_text(g, s, o) is Ok,
        tile_structural::value_text(g, x, o) is Ok,
    ensures
        tile_structural::items_text(g, s.push(x), o) == Ok::<Seq<char>, Seq<char>>(
            if s.len() == 0 {
                tile_structural::value_text(g, x, o)->Ok_0
            } else {
                tile_structural::items_text(g, s, o)->Ok_0 + ", "@ + tile_structural::value_text(
                    g,
                    x,
                    o,
                )->Ok_0
            },
        ),
{
    assert(s.push(x).drop_last() =~= s);
}

/// Plain values are written as JSON writes them.
pub proof fn law_plain_values_are_written<G: Grammar>(g: G, b: bool, n: Seq<char>, o: OptionsV)
    ensures
        tile_structural::value_text(g, JsonV::Null, o) == Ok::<Seq<char>, Seq<char>>("null"@),
        tile_structural::value_text(g, JsonV::Bool(b), o) == Ok::<Seq<char>, Seq<char>>(
            if b {
                "true"@
            } else {
                "false"@
            },
        ),
        tile_structural::value_text(g, JsonV::Number(n), o) == Ok::<Seq<char>, Seq<char>>(n),
{
}

} // verus!
