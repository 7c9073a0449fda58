//! What is read of a template with directives that was written.
use crate::chars;
use crate::dsl::ast::Span;
use crate::dsl::template::{ForSourceV, HoleV, OptionsV, PieceV, ReadingV};
use crate::dsl::template_laws;
use crate::dsl::tile;
use crate::dsl::tile::Grammar;
use vstd::prelude::*;

verus! {

/// Whether what opens a hole and what begins a directive can be told apart
/// from the space and the brace around a body.
pub open spec fn clear_marks(o: OptionsV) -> bool {
    &&& o.open.len() > 0
    &&& o.sigil.len() > 0
    &&& !chars::is_space(o.open[0])
    &&& !chars::is_space(o.sigil[0])
    &&& o.open[0] != '}'
    &&& o.sigil[0] != '}'
}

/// Whether neither a hole nor a directive begins in a text that was written
/// at a place, but where what opens a hole is doubled.
pub open spec fn unmarked(full: Seq<char>, o: OptionsV, at: int, s: Seq<char>) -> bool
    decreases s.len(),
{
    if s.len() == 0 || o.open.len() == 0 {
        true
    } else if chars::stands_at(s, 0, o.open) {
        unmarked(full, o, at + 2 * o.open.len(), s.skip(o.open.len() as int))
    } else {
        &&& !chars::stands_at(full, at, o.open)
        &&& !tile::directive_at(full, o, at, "for"@)
        &&& !tile::directive_at(full, o, at, "if"@)
        &&& unmarked(full, o, at + 1, s.skip(1))
    }
}

/// How deep in braces a text ends that begins at a depth; nothing where it
/// closes a brace that it did not open.
pub open spec fn text_depth(s: Seq<char>, open: Seq<char>, d: int) -> Option<int>
    decreases s.len(),
{
    if s.len() == 0 || open.len() == 0 {
        Some(d)
    } else if chars::stands_at(s, 0, open) {
        text_depth(s.skip(open.len() as int), open, d)
    } else if s[0] == '{' {
        text_depth(s.skip(1), open, d + 1)
    } else if s[0] == '}' {
        if d == 0 {
            None
        } else {
            text_depth(s.skip(1), open, d - 1)
        }
    } else {
        text_depth(s.skip(1), open, d)
    }
}

/// How deep in braces the texts of a run of pieces end.
pub open spec fn run_depth(ps: Seq<PieceV>, open: Seq<char>) -> Option<int>
    decreases ps.len(),
{
    if ps.len() == 0 {
        Some(0)
    } else {
        match run_depth(ps.drop_last(), open) {
            None => None,
            Some(d) => match ps.last() {
                PieceV::Static(s) => text_depth(s, open, d),
                _ => Some(d),
            },
        }
    }
}

/// The header of a projection, as it is written.
pub open spec fn for_header(source: ForSourceV, sep: Option<Seq<char>>) -> Seq<char> {
    " "@ + source.text + (match sep {
        Some(t) => " sep \""@ + t + "\""@,
        None => Seq::empty(),
    }) + " "@
}

/// Whether a header is read as it is written at a place.
pub open spec fn header_stands(
    full: Seq<char>,
    o: OptionsV,
    span: Span,
    at: int,
    head: Seq<char>,
) -> bool {
    tile::header(full, o, span, at, 0, None, Seq::empty()) == (
        (at + head.len()) as int,
        Ok::<Seq<char>, Seq<char>>(head),
    )
}

/// Whether a hole is read as it is written at a place.
pub open spec fn hole_stands<G: Grammar>(
    g: G,
    full: Seq<char>,
    o: OptionsV,
    span: Span,
    at: int,
    h: HoleV,
) -> bool {
    &&& !chars::stands_at(full, at, o.open + o.open)
    &&& tile::closing(full, o.close, (at + o.open.len()) as int, 0, None, Seq::empty()) == (
        (at + o.open.len() + h.text.len() + o.close.len()) as int,
        Some(h.text),
    )
    &&& tile::hole_of(g, h.text, span) == Ok::<HoleV, Seq<char>>(h)
}

/// Whether a piece is read as it is written at a place: its texts hold no
/// mark, its holes end where they are closed, and its headers end where its
/// bodies begin.
pub open spec fn piece_stands<G: Grammar>(
    g: G,
    full: Seq<char>,
    o: OptionsV,
    span: Span,
    at: int,
    p: PieceV,
) -> bool
    decreases p, 0nat,
{
    match p {
        PieceV::Static(s) => s.len() > 0 && unmarked(full, o, at, s),
        PieceV::Hole(h) => hole_stands(g, full, o, span, at, h),
        PieceV::Projection(source, sep, body, sp) => {
            let head = for_header(source, sep);
            let from = at + o.sigil.len() + 3;
            &&& sp == span
            &&& !chars::stands_at(full, at, o.open)
            &&& header_stands(full, o, span, from, head)
            &&& tile::sep_split(head).1 == sep
            &&& g.source(chars::trim(tile::sep_split(head).0)) == Ok::<ForSourceV, Seq<char>>(
                source,
            )
            &&& body_stands(g, full, o, span, from + head.len() + 1, body)
        },
        PieceV::Branch(cond, yes, otherwise, sp) => {
            let head = " "@ + cond.shown + " "@;
            let from = at + o.sigil.len() + 2;
            let first = from + head.len() + 1;
            let end = first + tile::rendered(yes, o).len() + 3;
            &&& sp == span
            &&& !chars::stands_at(full, at, o.open)
            &&& header_stands(full, o, span, from, head)
            &&& g.expression(chars::trim(head)) is Ok
            &&& g.expression(chars::trim(head))->Ok_0 == cond
            &&& body_stands(g, full, o, span, first, yes)
            &&& match otherwise {
                Some(no) => body_stands(
                    g,
                    full,
                    o,
                    span,
                    end + o.sigil.len() + 7,
                    no,
                ),
                None => !chars::stands_at(
                    full,
                    tile::after_space(full, end),
                    o.sigil + "else"@,
                ),
            }
        },
    }
}

/// Whether a run of pieces is read as it is written at a place: each piece
/// is, and no two texts touch.
pub open spec fn run_stands<G: Grammar>(
    g: G,
    full: Seq<char>,
    o: OptionsV,
    span: Span,
    at: int,
    ps: Seq<PieceV>,
) -> bool
    decreases ps, ps.len(),
{
    if ps.len() == 0 {
        true
    } else {
        &&& run_stands(g, full, o, span, at, ps.drop_last())
        &&& piece_stands(
            g,
            full,
            o,
            span,
            at + tile::rendered(ps.drop_last(), o).len(),
            ps.last(),
        )
        &&& !(ps.len() > 1 && ps.last() is Static && ps[ps.len() - 2] is Static)
    }
}

/// Whether a body is read as it is written at a place, the one after its
/// brace: its pieces are, its braces are balanced, and no white space stands
/// at its ends.
pub open spec fn body_stands<G: Grammar>(
    g: G,
    full: Seq<char>,
    o: OptionsV,
    span: Span,
    at: int,
    body: Seq<PieceV>,
) -> bool
    decreases body, body.len() + 1,
{
    &&& run_stands(g, full, o, span, at + 1, body)
    &&& run_depth(body, o.open) == Some(0int)
    &&& body.len() > 0 && body[0] is Static ==> !chars::is_space(body[0]->Static_0[0])
    &&& body.len() > 0 && body.last() is Static ==> !chars::is_space(
        body.last()->Static_0.last(),
    )
}

// ---------------------------------------------------------------------
// White space at the ends of a body
// ---------------------------------------------------------------------

/// A space before a text that does not begin with one is taken away.
proof fn lemma_lead_trimmed(s: Seq<char>)
    requires
        s.len() == 0 || !chars::is_space(s[0]),
    ensures
        chars::trim_start(seq![' '] + s) == s,
{
    let t = seq![' '] + s;
    assert(t.drop_first() =~= s);
    assert(chars::is_space(t[0]));
    reveal_with_fuel(chars::trim_start, 2);
}

/// A space behind a text that does not end with one is taken away.
proof fn lemma_tail_trimmed(s: Seq<char>)
    requires
        s.len() == 0 || !chars::is_space(s.last()),
    ensures
        chars::trim_end(s.push(' ')) == s,
{
    let t = s.push(' ');
    assert(t.drop_last() =~= s);
    assert(chars::is_space(t.last()));
    reveal_with_fuel(chars::trim_end, 2);
}

/// Whether a piece is kept in a body.
pub open spec fn kept(p: PieceV) -> bool {
    !(p is Static && p->Static_0.len() == 0)
}

/// What has nothing to be dropped stays.
pub proof fn lemma_all_kept(ps: Seq<PieceV>)
    requires
        forall|i: int| 0 <= i < ps.len() ==> kept(#[trigger] ps[i]),
    ensures
        ps.filter(|p: PieceV| !(p is Static && p->Static_0.len() == 0)) == ps,
    decreases ps.len(),
{
    let keep = |p: PieceV| !(p is Static && p->Static_0.len() == 0);
    reveal(Seq::filter);
    if ps.len() > 0 {
        let front = ps.drop_last();
        assert forall|i: int| 0 <= i < front.len() implies kept(#[trigger] front[i]) by {
            assert(kept(ps[i]));
        }
        lemma_all_kept(front);
        assert(kept(ps.last()));
        assert(keep(ps.last()));
        assert(ps.filter(keep) =~= ps);
    } else {
        assert(ps.filter(keep) =~= ps);
    }
}

/// A text of no length is dropped.
pub proof fn lemma_one_dropped(p: PieceV)
    requires
        !kept(p),
    ensures
        seq![p].filter(|p: PieceV| !(p is Static && p->Static_0.len() == 0)) == Seq::<
            PieceV,
        >::empty(),
{
    let keep = |p: PieceV| !(p is Static && p->Static_0.len() == 0);
    reveal_with_fuel(Seq::filter, 2);
    let one = seq![p];
    assert(one.drop_last() =~= Seq::<PieceV>::empty());
    assert(one.last() == p);
    assert(!keep(p));
    assert(one.filter(keep) =~= Seq::<PieceV>::empty());
}

/// The texts of a run are not empty.
proof fn lemma_run_kept<G: Grammar>(
    g: G,
    full: Seq<char>,
    o: OptionsV,
    span: Span,
    at: int,
    ps: Seq<PieceV>,
)
    requires
        run_stands(g, full, o, span, at, ps),
    ensures
        forall|i: int| 0 <= i < ps.len() ==> kept(#[trigger] ps[i]),
    decreases ps.len(),
{
    if ps.len() > 0 {
        lemma_run_kept(g, full, o, span, at, ps.drop_last());
        assert forall|i: int| 0 <= i < ps.len() implies kept(#[trigger] ps[i]) by {
            if i < ps.len() - 1 {
                assert(ps.drop_last()[i] == ps[i]);
                assert(kept(ps.drop_last()[i]));
            } else {
                assert(piece_stands(
                    g,
                    full,
                    o,
                    span,
                    at + tile::rendered(ps.drop_last(), o).len(),
                    ps.last(),
                ));
                assert(ps[i] == ps.last());
            }
        }
    }
}

/// The text that is gathered and the pieces that are settled behind a run,
/// where `buf` was gathered before it.
pub open spec fn state_behind(ps: Seq<PieceV>, buf: Seq<char>) -> (Seq<char>, Seq<PieceV>)
    decreases ps.len(),
{
    if ps.len() == 0 {
        (buf, Seq::empty())
    } else {
        let (b, out) = state_behind(ps.drop_last(), buf);
        match ps.last() {
            PieceV::Static(s) => (b + s, out),
            p => (Seq::empty(), tile::flushed(out, b).push(p)),
        }
    }
}

/// A run with a text put before it.
pub open spec fn led(ps: Seq<PieceV>, buf: Seq<char>) -> Seq<PieceV> {
    if ps.len() > 0 && ps[0] is Static {
        ps.update(0, PieceV::Static(buf + ps[0]->Static_0))
    } else if buf.len() > 0 {
        seq![PieceV::Static(buf)] + ps
    } else {
        ps
    }
}

/// That state is the run with the text put before it.
proof fn lemma_state<G: Grammar>(
    g: G,
    full: Seq<char>,
    o: OptionsV,
    span: Span,
    at: int,
    ps: Seq<PieceV>,
    buf: Seq<char>,
)
    requires
        run_stands(g, full, o, span, at, ps),
        ps.len() > 0,
    ensures
        ({
            let (b, out) = state_behind(ps, buf);
            if ps.last() is Static {
                &&& b.len() > 0
                &&& led(ps, buf).len() > 0
                &&& out == led(ps, buf).drop_last()
                &&& led(ps, buf).last() == PieceV::Static(b)
            } else {
                b.len() == 0 && out == led(ps, buf)
            }
        }),
    decreases ps.len(),
{
    let front = ps.drop_last();
    let p = ps.last();
    let (b, out) = state_behind(front, buf);
    assert(piece_stands(
        g,
        full,
        o,
        span,
        at + tile::rendered(front, o).len(),
        p,
    ));
    if front.len() == 0 {
        assert(b == buf && out =~= Seq::<PieceV>::empty());
        assert(ps =~= seq![p]);
        match p {
            PieceV::Static(s) => {
                assert(led(ps, buf) =~= seq![PieceV::Static(buf + s)]);
                assert(led(ps, buf).drop_last() =~= Seq::<PieceV>::empty());
            },
            _ => {
                assert(tile::flushed(out, b).push(p) =~= led(ps, buf));
            },
        }
    } else {
        lemma_state(g, full, o, span, at, front, buf);
        assert(front[0] == ps[0]);
        assert(front.last() == ps[ps.len() - 2]);
        assert(led(ps, buf) =~= led(front, buf).push(p));
        match p {
            PieceV::Static(s) => {
                assert(!(front.last() is Static));
                assert(b =~= Seq::<char>::empty());
                assert(b + s =~= s);
                assert(led(ps, buf).drop_last() =~= led(front, buf));
            },
            _ => {
                if front.last() is Static {
                    assert(tile::flushed(out, b) =~= led(front, buf));
                } else {
                    assert(tile::flushed(out, b) =~= led(front, buf));
                }
            },
        }
    }
}

/// Empty texts at the ends of a run are dropped.
proof fn lemma_ends_dropped(body: Seq<PieceV>, front: bool, back: bool)
    requires
        forall|i: int| 0 <= i < body.len() ==> kept(#[trigger] body[i]),
    ensures
        ({
            let none = PieceV::Static(Seq::<char>::empty());
            let pre = if front {
                seq![none]
            } else {
                Seq::<PieceV>::empty()
            };
            let post = if back {
                seq![none]
            } else {
                Seq::<PieceV>::empty()
            };
            (pre + body + post).filter(|p: PieceV| !(p is Static && p->Static_0.len() == 0))
                == body
        }),
{
    let keep = |p: PieceV| !(p is Static && p->Static_0.len() == 0);
    let none = PieceV::Static(Seq::<char>::empty());
    let pre = if front {
        seq![none]
    } else {
        Seq::<PieceV>::empty()
    };
    let post = if back {
        seq![none]
    } else {
        Seq::<PieceV>::empty()
    };
    Seq::filter_distributes_over_add(pre + body, post, keep);
    Seq::filter_distributes_over_add(pre, body, keep);
    lemma_one_dropped(none);
    lemma_all_kept(body);
    lemma_all_kept(Seq::<PieceV>::empty());
    assert((pre + body + post).filter(keep) =~= body);
}

/// The white space that is written around a body that is not one text is
/// taken away again.
proof fn lemma_trimmed_long(body: Seq<PieceV>, b: Seq<char>, out: Seq<PieceV>)
    requires
        body.len() > 0,
        !(body.len() == 1 && body[0] is Static),
        forall|i: int| 0 <= i < body.len() ==> kept(#[trigger] body[i]),
        body[0] is Static ==> !chars::is_space(body[0]->Static_0[0]),
        body.last() is Static ==> !chars::is_space(body.last()->Static_0.last()),
        body.last() is Static ==> out == led(body, seq![' ']).drop_last() && led(
            body,
            seq![' '],
        ).last() == PieceV::Static(b),
        !(body.last() is Static) ==> b.len() == 0 && out == led(body, seq![' ']),
    ensures
        tile::trimmed_body(tile::flushed(out, b.push(' '))) == body,
{
    let keep = |p: PieceV| !(p is Static && p->Static_0.len() == 0);
    let all = tile::flushed(out, b.push(' '));
    let none = PieceV::Static(Seq::<char>::empty());
    let whole = led(body, seq![' ']);
    let first = if body[0] is Static {
        body[0]->Static_0
    } else {
        Seq::empty()
    };
    let last = if body.last() is Static {
        body.last()->Static_0
    } else {
        Seq::empty()
    };
    assert(kept(body[0]));
    assert(kept(body[body.len() - 1]));
    lemma_lead_trimmed(first);
    lemma_tail_trimmed(last);
    assert(seq![' '] + Seq::<char>::empty() =~= seq![' ']);
    assert(whole[0] == PieceV::Static(seq![' '] + first));
    assert(b =~= last);
    assert(all == out.push(PieceV::Static(last.push(' '))));
    let n = out.len() as int;
    assert(n > 0);
    assert(all[0] == whole[0]);
    let a = all.update(0, PieceV::Static(first));
    assert(a.last() == PieceV::Static(last.push(' ')));
    let z = a.update(n, PieceV::Static(last));
    assert(tile::trimmed_body(all) == z.filter(keep));
    let pre = if !(body[0] is Static) {
        seq![none]
    } else {
        Seq::<PieceV>::empty()
    };
    let post = if !(body.last() is Static) {
        seq![none]
    } else {
        Seq::<PieceV>::empty()
    };
    assert(z =~= pre + body + post) by {
        assert forall|i: int| 0 <= i < z.len() implies z[i] == (pre + body + post)[i] by {
            if i == 0 {
            } else if i == n {
            } else {
                assert(z[i] == whole[i]);
            }
        }
    }
    lemma_ends_dropped(body, !(body[0] is Static), !(body.last() is Static));
}

/// The white space that is written around a body is taken away again.
proof fn lemma_trimmed<G: Grammar>(
    g: G,
    full: Seq<char>,
    o: OptionsV,
    span: Span,
    at: int,
    body: Seq<PieceV>,
)
    requires
        body_stands(g, full, o, span, at, body),
    ensures
        ({
            let (b, out) = state_behind(body, seq![' ']);
            tile::trimmed_body(tile::flushed(out, b.push(' '))) == body
        }),
{
    let (b, out) = state_behind(body, seq![' ']);
    let all = tile::flushed(out, b.push(' '));
    assert(all == out.push(PieceV::Static(b.push(' '))));
    if body.len() == 0 {
        let none = Seq::<char>::empty();
        assert(b.push(' ') =~= seq![' '] + none.push(' '));
        reveal_with_fuel(chars::trim_start, 3);
        assert((seq![' '] + none.push(' ')).drop_first() =~= none.push(' '));
        assert(none.push(' ').drop_first() =~= none);
        assert(chars::trim_start(b.push(' ')) =~= none);
        let one = seq![PieceV::Static(none)];
        assert(all.update(0, PieceV::Static(none)) =~= one);
        assert(chars::trim_end(none) == none);
        assert(one.update(0, PieceV::Static(none)) =~= one);
        lemma_one_dropped(PieceV::Static(none));
        assert(body =~= Seq::<PieceV>::empty());
    } else {
        lemma_run_kept(g, full, o, span, at + 1, body);
        lemma_state(g, full, o, span, at + 1, body, seq![' ']);
        lemma_all_kept(body);
        let whole = led(body, seq![' ']);
        assert(kept(body[0]));
        assert(kept(body[body.len() - 1]));
        if body.len() == 1 && body[0] is Static {
            let s = body[0]->Static_0;
            assert(whole =~= seq![PieceV::Static(seq![' '] + s)]);
            assert(b == seq![' '] + s);
            assert(out =~= Seq::<PieceV>::empty());
            assert(b.push(' ') =~= seq![' '] + s.push(' '));
            assert(s.push(' ')[0] == s[0]);
            lemma_lead_trimmed(s.push(' '));
            lemma_tail_trimmed(s);
            assert(all.update(0, PieceV::Static(s.push(' '))).update(0, PieceV::Static(s))
                =~= body);
        } else {
            lemma_trimmed_long(body, b, out);
        }
    }
}

// ---------------------------------------------------------------------
// Where things stand
// ---------------------------------------------------------------------

/// What stands at a place stands there part by part.
pub proof fn lemma_parts_stand(full: Seq<char>, at: int, a: Seq<char>, b: Seq<char>)
    requires
        chars::stands_at(full, at, a + b),
    ensures
        chars::stands_at(full, at, a),
        chars::stands_at(full, at + a.len(), b),
{
    let t = a + b;
    assert(full.subrange(at, at + t.len()) == t);
    assert(full.subrange(at, at + a.len()) =~= a) by {
        assert forall|i: int| 0 <= i < a.len() implies full.subrange(at, at + a.len())[i]
            == a[i] by {
            assert(full.subrange(at, at + t.len())[i] == t[i]);
        }
    }
    let from = at + a.len();
    assert(full.subrange(from, from + b.len()) =~= b) by {
        assert forall|i: int| 0 <= i < b.len() implies full.subrange(from, from + b.len())[i]
            == b[i] by {
            assert(full.subrange(at, at + t.len())[a.len() + i] == t[a.len() + i]);
        }
    }
}

/// What stands at a place begins with its first character.
pub proof fn lemma_first_stands(full: Seq<char>, at: int, a: Seq<char>)
    requires
        chars::stands_at(full, at, a),
        a.len() > 0,
    ensures
        full[at] == a[0],
{
    assert(full.subrange(at, at + a.len())[0] == full[at]);
}

/// No mark stands where another character does.
proof fn lemma_no_mark(full: Seq<char>, o: OptionsV, pos: int)
    requires
        clear_marks(o),
        0 <= pos < full.len(),
        full[pos] == ' ' || full[pos] == '}',
    ensures
        !chars::stands_at(full, pos, o.open),
        !chars::stands_at(full, pos, o.open + o.open),
        !tile::directive_at(full, o, pos, "for"@),
        !tile::directive_at(full, o, pos, "if"@),
{
    assert(chars::is_space(' '));
    if chars::stands_at(full, pos, o.open) {
        lemma_first_stands(full, pos, o.open);
    }
    if chars::stands_at(full, pos, o.open + o.open) {
        lemma_first_stands(full, pos, o.open + o.open);
    }
    if chars::stands_at(full, pos, o.sigil) {
        lemma_first_stands(full, pos, o.sigil);
    }
}

/// A body between its braces, as it is written.
pub open spec fn braced(body: Seq<PieceV>, o: OptionsV) -> Seq<char> {
    seq!['{', ' '] + tile::rendered(body, o) + seq![' ', '}']
}

/// A projection is its mark, its header and its body.
pub proof fn lemma_projection_written(
    source: ForSourceV,
    sep: Option<Seq<char>>,
    body: Seq<PieceV>,
    span: Span,
    o: OptionsV,
)
    ensures
        tile::rendered_piece(PieceV::Projection(source, sep, body, span), o) == o.sigil
            + "for"@ + for_header(source, sep) + braced(body, o),
{
    reveal_strlit("for ");
    reveal_strlit("for");
    reveal_strlit(" ");
    reveal_strlit(" { ");
    reveal_strlit(" }");
    assert("for "@ =~= "for"@ + " "@);
    assert(" { "@ =~= " "@ + seq!['{', ' ']);
    assert(" }"@ =~= seq![' ', '}']);
    assert(tile::rendered_piece(PieceV::Projection(source, sep, body, span), o) =~= o.sigil
        + "for"@ + for_header(source, sep) + braced(body, o));
}

/// A branch is its mark, its header, its body and, if it has one, the other
/// body behind a mark.
pub proof fn lemma_branch_written(
    cond: ReadingV,
    yes: Seq<PieceV>,
    otherwise: Option<Seq<PieceV>>,
    span: Span,
    o: OptionsV,
)
    ensures
        tile::rendered_piece(PieceV::Branch(cond, yes, otherwise, span), o) == o.sigil + "if"@
            + (" "@ + cond.shown + " "@) + braced(yes, o) + (match otherwise {
            Some(no) => " "@ + (o.sigil + "else"@) + " "@ + braced(no, o),
            None => Seq::empty(),
        }),
{
    reveal_strlit("if ");
    reveal_strlit("if");
    reveal_strlit(" ");
    reveal_strlit(" { ");
    reveal_strlit(" }");
    reveal_strlit("else");
    reveal_strlit("else { ");
    assert("if "@ =~= "if"@ + " "@);
    assert(" { "@ =~= " "@ + seq!['{', ' ']);
    assert(" }"@ =~= seq![' ', '}']);
    assert("else { "@ =~= "else"@ + " "@ + seq!['{', ' ']);
    let head = " "@ + cond.shown + " "@;
    let first = o.sigil + "if "@ + cond.shown + " { "@ + tile::rendered(yes, o) + " }"@;
    assert(first =~= o.sigil + "if"@ + head + braced(yes, o));
    match otherwise {
        Some(no) => {
            assert(first + " "@ + o.sigil + "else { "@ + tile::rendered(no, o) + " }"@ =~= first
                + (" "@ + (o.sigil + "else"@) + " "@ + braced(no, o)));
        },
        None => {
            assert(first + Seq::<char>::empty() =~= first);
        },
    }
}

// ---------------------------------------------------------------------
// Reading back
// ---------------------------------------------------------------------

/// A text that was written is read back.
proof fn lemma_text<G: Grammar>(
    g: G,
    full: Seq<char>,
    o: OptionsV,
    span: Span,
    in_block: bool,
    pos: int,
    s: Seq<char>,
    d: int,
    buf: Seq<char>,
    out: Seq<PieceV>,
)
    requires
        o.open.len() > 0,
        chars::stands_at(full, pos, tile::escaped(s, o.open)),
        unmarked(full, o, pos, s),
        in_block ==> text_depth(s, o.open, d) is Some,
    ensures
        tile::pieces(g, full, o, span, in_block, pos, d, buf, out) == tile::pieces(
            g,
            full,
            o,
            span,
            in_block,
            pos + tile::escaped(s, o.open).len(),
            if in_block {
                text_depth(s, o.open, d)->Some_0
            } else {
                d
            },
            buf + s,
            out,
        ),
    decreases s.len(),
{
    let open = o.open;
    let m = open.len();
    if s.len() == 0 {
        assert(buf + s =~= buf);
    } else if chars::stands_at(s, 0, open) {
        let tail = s.skip(m as int);
        let rest = tile::escaped(tail, open);
        lemma_parts_stand(full, pos, open + open, rest);
        lemma_text(g, full, o, span, in_block, pos + 2 * m, tail, d, buf + open, out);
        assert(s =~= open + tail) by {
            assert(s.subrange(0, m as int) == open);
        }
        assert(buf + open + tail =~= buf + s);
    } else {
        let tail = s.skip(1);
        let rest = tile::escaped(tail, open);
        lemma_parts_stand(full, pos, seq![s[0]], rest);
        lemma_first_stands(full, pos, seq![s[0]]);
        if chars::stands_at(full, pos, open + open) {
            lemma_parts_stand(full, pos, open, open);
        }
        let e = if s[0] == '{' {
            d + 1
        } else if s[0] == '}' {
            d - 1
        } else {
            d
        };
        if !in_block {
            template_laws::lemma_depth(
                g,
                full,
                o,
                span,
                pos + 1,
                e,
                d,
                buf.push(s[0]),
                out,
            );
            lemma_text(g, full, o, span, in_block, pos + 1, tail, d, buf.push(s[0]), out);
        } else {
            lemma_text(g, full, o, span, in_block, pos + 1, tail, e, buf.push(s[0]), out);
        }
        assert(buf.push(s[0]) + tail =~= buf + s);
    }
}

/// A hole that was written is read back.
proof fn lemma_hole_step<G: Grammar>(
    g: G,
    full: Seq<char>,
    o: OptionsV,
    span: Span,
    in_block: bool,
    pos: int,
    d: int,
    buf: Seq<char>,
    out: Seq<PieceV>,
    h: HoleV,
)
    requires
        clear_marks(o),
        chars::stands_at(full, pos, o.open + h.text + o.close),
        hole_stands(g, full, o, span, pos, h),
    ensures
        tile::pieces(g, full, o, span, in_block, pos, d, buf, out) == tile::pieces(
            g,
            full,
            o,
            span,
            in_block,
            pos + (o.open + h.text + o.close).len(),
            d,
            Seq::empty(),
            tile::flushed(out, buf).push(PieceV::Hole(h)),
        ),
{
    assert(o.open + (h.text + o.close) =~= o.open + h.text + o.close);
    lemma_parts_stand(full, pos, o.open, h.text + o.close);
}

/// A directive that is read as one piece is one step.
proof fn lemma_directive_step<G: Grammar>(
    g: G,
    full: Seq<char>,
    o: OptionsV,
    span: Span,
    in_block: bool,
    pos: int,
    d: int,
    buf: Seq<char>,
    out: Seq<PieceV>,
    p: PieceV,
    end: int,
)
    requires
        o.open.len() > 0,
        0 <= pos < end <= full.len(),
        !chars::stands_at(full, pos, o.open + o.open),
        !chars::stands_at(full, pos, o.open),
        if tile::directive_at(full, o, pos, "for"@) {
            tile::projection(g, full, o, span, pos) == (end, Ok::<PieceV, Seq<char>>(p))
        } else {
            tile::directive_at(full, o, pos, "if"@) && tile::branch(g, full, o, span, pos) == (
                end,
                Ok::<PieceV, Seq<char>>(p),
            )
        },
    ensures
        tile::pieces(g, full, o, span, in_block, pos, d, buf, out) == tile::pieces(
            g,
            full,
            o,
            span,
            in_block,
            end,
            d,
            Seq::empty(),
            tile::flushed(out, buf).push(p),
        ),
{
}

/// A run of pieces that was written is read back.
#[verifier::spinoff_prover]
#[verifier::rlimit(40)]
proof fn lemma_run<G: Grammar>(
    g: G,
    full: Seq<char>,
    o: OptionsV,
    span: Span,
    in_block: bool,
    at: int,
    ps: Seq<PieceV>,
    buf: Seq<char>,
)
    requires
        clear_marks(o),
        chars::stands_at(full, at, tile::rendered(ps, o)),
        run_stands(g, full, o, span, at, ps),
        in_block ==> run_depth(ps, o.open) is Some,
    ensures
        tile::pieces(g, full, o, span, in_block, at, 0, buf, Seq::empty()) == tile::pieces(
            g,
            full,
            o,
            span,
            in_block,
            at + tile::rendered(ps, o).len(),
            if in_block {
                run_depth(ps, o.open)->Some_0
            } else {
                0
            },
            state_behind(ps, buf).0,
            state_behind(ps, buf).1,
        ),
    decreases ps, ps.len(),
{
    if ps.len() > 0 {
        let front = ps.drop_last();
        let p = ps.last();
        let (b, out) = state_behind(front, buf);
        let pos = at + tile::rendered(front, o).len();
        let d: int = if in_block {
            run_depth(front, o.open)->Some_0
        } else {
            0
        };
        lemma_parts_stand(full, at, tile::rendered(front, o), tile::rendered_piece(p, o));
        lemma_run(g, full, o, span, in_block, at, front, buf);
        assert(piece_stands(g, full, o, span, pos, p));
        match p {
            PieceV::Static(s) => {
                lemma_text(g, full, o, span, in_block, pos, s, d, b, out);
            },
            PieceV::Hole(h) => {
                lemma_hole_step(g, full, o, span, in_block, pos, d, b, out, h);
            },
            PieceV::Projection(source, sep, body, sp) => {
                assert(decreases_to!(ps => ps[ps.len() - 1]));
                lemma_projection(g, full, o, span, pos, p);
                lemma_projection_written(source, sep, body, sp, o);
                let end = pos + tile::rendered_piece(p, o).len();
                lemma_directive_step(g, full, o, span, in_block, pos, d, b, out, p, end);
            },
            PieceV::Branch(cond, yes, otherwise, sp) => {
                assert(decreases_to!(ps => ps[ps.len() - 1]));
                lemma_branch(g, full, o, span, pos, p);
                lemma_branch_written(cond, yes, otherwise, sp, o);
                let end = pos + tile::rendered_piece(p, o).len();
                lemma_directive_step(g, full, o, span, in_block, pos, d, b, out, p, end);
            },
        }
    }
}

/// A body that was written is read back.
proof fn lemma_block<G: Grammar>(
    g: G,
    full: Seq<char>,
    o: OptionsV,
    span: Span,
    pos: int,
    body: Seq<PieceV>,
)
    requires
        clear_marks(o),
        chars::stands_at(full, pos, braced(body, o)),
        body_stands(g, full, o, span, pos + 1, body),
    ensures
        tile::block(g, full, o, span, pos) == (
            (pos + braced(body, o).len()) as int,
            Ok::<Seq<PieceV>, Seq<char>>(body),
        ),
    decreases body, body.len() + 1,
{
    let text = tile::rendered(body, o);
    let none = Seq::<char>::empty();
    let (b, out) = state_behind(body, seq![' ']);
    let e = pos + 2 + text.len();
    lemma_parts_stand(full, pos, seq!['{', ' '] + text, seq![' ', '}']);
    lemma_parts_stand(full, pos, seq!['{', ' '], text);
    assert(full.subrange(pos, pos + 2)[0] == full[pos]);
    assert(full.subrange(pos, pos + 2)[1] == full[pos + 1]);
    assert(full.subrange(e, e + 2)[0] == full[e]);
    assert(full.subrange(e, e + 2)[1] == full[e + 1]);
    lemma_no_mark(full, o, pos + 1);
    lemma_no_mark(full, o, e);
    lemma_no_mark(full, o, e + 1);
    assert(none.push(' ') =~= seq![' ']);
    assert(tile::pieces(g, full, o, span, true, pos + 1, 0, none, Seq::empty()) == tile::pieces(
        g,
        full,
        o,
        span,
        true,
        pos + 2,
        0,
        seq![' '],
        Seq::empty(),
    ));
    lemma_run(g, full, o, span, true, pos + 2, body, seq![' ']);
    assert(tile::pieces(g, full, o, span, true, e, 0, b, out) == tile::pieces(
        g,
        full,
        o,
        span,
        true,
        e + 1,
        0,
        b.push(' '),
        out,
    ));
    lemma_trimmed(g, full, o, span, pos + 1, body);
}

/// A projection that was written is read back.
proof fn lemma_projection<G: Grammar>(
    g: G,
    full: Seq<char>,
    o: OptionsV,
    span: Span,
    pos: int,
    p: PieceV,
)
    requires
        clear_marks(o),
        p is Projection,
        chars::stands_at(full, pos, tile::rendered_piece(p, o)),
        piece_stands(g, full, o, span, pos, p),
    ensures
        tile::directive_at(full, o, pos, "for"@),
        !chars::stands_at(full, pos, o.open + o.open),
        !chars::stands_at(full, pos, o.open),
        tile::projection(g, full, o, span, pos) == (
            (pos + tile::rendered_piece(p, o).len()) as int,
            Ok::<PieceV, Seq<char>>(p),
        ),
    decreases p, 0nat,
{
    match p {
        PieceV::Projection(source, sep, body, sp) => {
            let head = for_header(source, sep);
            lemma_projection_written(source, sep, body, sp, o);
            reveal_strlit("for");
            reveal_strlit(" ");
            lemma_parts_stand(full, pos, o.sigil + "for"@ + head, braced(body, o));
            lemma_parts_stand(full, pos, o.sigil + "for"@, head);
            lemma_parts_stand(full, pos, o.sigil, "for"@);
            lemma_first_stands(full, pos + o.sigil.len() + 3, head);
            assert(head[0] == ' ');
            if chars::stands_at(full, pos, o.open + o.open) {
                lemma_parts_stand(full, pos, o.open, o.open);
            }
            lemma_block(g, full, o, span, pos + o.sigil.len() + 3 + head.len(), body);
        },
        _ => {},
    }
}

/// What stands between the two bodies of a branch.
pub proof fn lemma_else_stands(full: Seq<char>, o: OptionsV, end: int, no: Seq<PieceV>)
    requires
        clear_marks(o),
        chars::stands_at(full, end, " "@ + (o.sigil + "else"@) + " "@ + braced(no, o)),
    ensures
        tile::after_space(full, end) == end + 1,
        chars::stands_at(full, end + 1, o.sigil + "else"@),
        (o.sigil + "else"@).len() == o.sigil.len() + 4,
        tile::after_space(full, end + 1 + o.sigil.len() + 4) == end + 2 + o.sigil.len() + 4,
        chars::stands_at(full, end + 2 + o.sigil.len() + 4, braced(no, o)),
        (" "@ + (o.sigil + "else"@) + " "@ + braced(no, o)).len() == o.sigil.len() + 6 + braced(
            no,
            o,
        ).len(),
{
    let other = o.sigil + "else"@;
    reveal_strlit(" ");
    reveal_strlit("else");
    lemma_parts_stand(full, end, " "@ + other + " "@, braced(no, o));
    lemma_parts_stand(full, end, " "@ + other, " "@);
    lemma_parts_stand(full, end, " "@, other);
    lemma_first_stands(full, end, " "@);
    lemma_first_stands(full, end + 1, other);
    let q = end + 1 + other.len();
    lemma_first_stands(full, q, " "@);
    lemma_first_stands(full, q + 1, braced(no, o));
    assert(braced(no, o)[0] == '{');
    assert(!chars::is_space('{'));
    reveal_with_fuel(tile::after_space, 2);
}

/// Where the parts of a branch stand.
pub proof fn lemma_branch_stands(
    full: Seq<char>,
    o: OptionsV,
    pos: int,
    head: Seq<char>,
    rest: Seq<char>,
    tail: Seq<char>,
)
    requires
        head.len() > 0,
        head[0] == ' ',
        chars::stands_at(full, pos, o.sigil + "if"@ + head + rest + tail),
    ensures
        !tile::directive_at(full, o, pos, "for"@),
        tile::directive_at(full, o, pos, "if"@),
        chars::stands_at(full, pos + o.sigil.len() + 2 + head.len(), rest),
        chars::stands_at(full, pos + o.sigil.len() + 2 + head.len() + rest.len(), tail),
        (o.sigil + "if"@ + head + rest + tail).len() == o.sigil.len() + 2 + head.len()
            + rest.len() + tail.len(),
{
    reveal_strlit("if");
    reveal_strlit("for");
    lemma_parts_stand(full, pos, o.sigil + "if"@ + head + rest, tail);
    lemma_parts_stand(full, pos, o.sigil + "if"@ + head, rest);
    lemma_parts_stand(full, pos, o.sigil + "if"@, head);
    lemma_parts_stand(full, pos, o.sigil, "if"@);
    lemma_first_stands(full, pos + o.sigil.len() + 2, head);
    lemma_first_stands(full, pos + o.sigil.len(), "if"@);
    if chars::stands_at(full, pos + o.sigil.len(), "for"@) {
        lemma_first_stands(full, pos + o.sigil.len(), "for"@);
    }
}

/// A branch that was written is read back.
#[verifier::spinoff_prover]
proof fn lemma_branch<G: Grammar>(
    g: G,
    full: Seq<char>,
    o: OptionsV,
    span: Span,
    pos: int,
    p: PieceV,
)
    requires
        clear_marks(o),
        p is Branch,
        chars::stands_at(full, pos, tile::rendered_piece(p, o)),
        piece_stands(g, full, o, span, pos, p),
    ensures
        !tile::directive_at(full, o, pos, "for"@),
        tile::directive_at(full, o, pos, "if"@),
        !chars::stands_at(full, pos, o.open + o.open),
        !chars::stands_at(full, pos, o.open),
        tile::branch(g, full, o, span, pos) == (
            (pos + tile::rendered_piece(p, o).len()) as int,
            Ok::<PieceV, Seq<char>>(p),
        ),
    decreases p, 0nat,
{
    match p {
        PieceV::Branch(cond, yes, otherwise, sp) => {
            let head = " "@ + cond.shown + " "@;
            let tail = match otherwise {
                Some(no) => " "@ + (o.sigil + "else"@) + " "@ + braced(no, o),
                None => Seq::empty(),
            };
            let from = pos + o.sigil.len() + 2;
            let at = from + head.len();
            let end = at + braced(yes, o).len();
            lemma_branch_written(cond, yes, otherwise, sp, o);
            reveal_strlit(" ");
            assert(head[0] == ' ');
            lemma_branch_stands(full, o, pos, head, braced(yes, o), tail);
            if chars::stands_at(full, pos, o.open + o.open) {
                lemma_parts_stand(full, pos, o.open, o.open);
            }
            lemma_block(g, full, o, span, at, yes);
            match otherwise {
                Some(no) => {
                    let q = end + 1 + o.sigil.len() + 4;
                    lemma_else_stands(full, o, end, no);
                    lemma_block(g, full, o, span, q + 1, no);
                },
                None => {},
            }
        },
        _ => {},
    }
}

/// What a template is written to is read back as that template, where each
/// of its pieces stands as it was written.
pub proof fn law_template_round_trip<G: Grammar>(
    g: G,
    ps: Seq<PieceV>,
    o: OptionsV,
    span: Span,
)
    requires
        clear_marks(o),
        run_stands(g, tile::rendered(ps, o), o, span, 0, ps),
    ensures
        tile::template_of(g, tile::rendered(ps, o), o, span) == Ok::<Seq<PieceV>, Seq<char>>(ps),
{
    let full = tile::rendered(ps, o);
    let none = Seq::<char>::empty();
    assert(full.subrange(0, full.len() as int) =~= full);
    lemma_run(g, full, o, span, false, 0, ps, none);
    if ps.len() > 0 {
        lemma_state(g, full, o, span, 0, ps, none);
        if ps[0] is Static {
            assert(none + ps[0]->Static_0 =~= ps[0]->Static_0);
        }
        assert(led(ps, none) =~= ps);
        let (b, out) = state_behind(ps, none);
        if ps.last() is Static {
            assert(tile::flushed(out, b) =~= ps);
        }
    } else {
        assert(ps =~= Seq::<PieceV>::empty());
    }
}

} // verus!
