//! What is read of a template that was written.
use crate::chars;
use crate::dsl::ast::Span;
use crate::dsl::template::{HoleV, OptionsV, PieceV};
use crate::dsl::tile;
use crate::dsl::tile::Grammar;
use vstd::prelude::*;

verus! {

/// Whether what opens a hole can be told apart from text: its first
/// character stands in it once.
pub open spec fn distinct_opener(o: OptionsV) -> bool {
    o.open.len() > 0 && forall|j: int| 0 < j < o.open.len() ==> #[trigger] o.open[j] != o.open[0]
}

/// Whether a hole is read as it is written: its text ends where it is
/// closed, and stands for that hole.
pub open spec fn hole_legible<G: Grammar>(g: G, o: OptionsV, span: Span, h: HoleV) -> bool {
    &&& tile::closing(h.text + o.close, o.close, 0, 0, None, Seq::empty()) == (
        (h.text.len() + o.close.len()) as int,
        Some(h.text),
    )
    &&& tile::hole_of(g, h.text, span) == Ok::<HoleV, Seq<char>>(h)
    &&& h.text[0] != o.open[0]
}

/// Whether a run of texts and holes is read as it is written: texts are not
/// empty and do not touch each other, and every hole is legible.
pub open spec fn legible<G: Grammar>(g: G, o: OptionsV, span: Span, ps: Seq<PieceV>) -> bool {
    &&& forall|i: int|
        0 <= i < ps.len() ==> match #[trigger] ps[i] {
            PieceV::Static(s) => s.len() > 0,
            PieceV::Hole(h) => hole_legible(g, o, span, h),
            _ => false,
        }
    &&& forall|i: int|
        0 <= i < ps.len() - 1 ==> !((#[trigger] ps[i]) is Static && ps[i + 1] is Static)
}

/// Whether no directive begins in a text.
pub open spec fn quiet(s: Seq<char>, o: OptionsV) -> bool {
    forall|p: int|
        0 <= p < s.len() ==> !#[trigger] tile::directive_at(s, o, p, "for"@) && !tile::directive_at(
            s,
            o,
            p,
            "if"@,
        )
}

/// Outside a body the braces of plain text do not matter.
pub proof fn lemma_depth<G: Grammar>(
    g: G,
    s: Seq<char>,
    o: OptionsV,
    span: Span,
    pos: int,
    d: int,
    e: int,
    buf: Seq<char>,
    out: Seq<PieceV>,
)
    ensures
        tile::pieces(g, s, o, span, false, pos, d, buf, out) == tile::pieces(
            g,
            s,
            o,
            span,
            false,
            pos,
            e,
            buf,
            out,
        ),
    decreases s.len() - pos,
{
    if pos < 0 || pos >= s.len() || o.open.len() == 0 {
    } else if chars::stands_at(s, pos, o.open + o.open) {
        lemma_depth(g, s, o, span, pos + 2 * o.open.len(), d, e, buf + o.open, out);
    } else if chars::stands_at(s, pos, o.open) {
        let (p, r) = tile::hole_at(g, s, o, span, pos);
        if r is Ok && pos < p <= s.len() {
            lemma_depth(
                g,
                s,
                o,
                span,
                p,
                d,
                e,
                Seq::empty(),
                tile::flushed(out, buf).push(PieceV::Hole(r->Ok_0)),
            );
        }
    } else if tile::directive_at(s, o, pos, "for"@) {
        let (p, r) = tile::projection(g, s, o, span, pos);
        if r is Ok && pos < p <= s.len() {
            lemma_depth(
                g,
                s,
                o,
                span,
                p,
                d,
                e,
                Seq::empty(),
                tile::flushed(out, buf).push(r->Ok_0),
            );
        }
    } else if tile::directive_at(s, o, pos, "if"@) {
        let (p, r) = tile::branch(g, s, o, span, pos);
        if r is Ok && pos < p <= s.len() {
            lemma_depth(
                g,
                s,
                o,
                span,
                p,
                d,
                e,
                Seq::empty(),
                tile::flushed(out, buf).push(r->Ok_0),
            );
        }
    } else {
        let d1 = if s[pos] == '{' {
            d + 1
        } else if s[pos] == '}' {
            d - 1
        } else {
            d
        };
        let e1 = if s[pos] == '{' {
            e + 1
        } else if s[pos] == '}' {
            e - 1
        } else {
            e
        };
        lemma_depth(g, s, o, span, pos + 1, d1, e1, buf.push(s[pos]), out);
    }
}

/// Escaping leaves a run as it is as long as what opens a hole does not
/// begin in it.
proof fn lemma_escaped_prefix(s: Seq<char>, open: Seq<char>, j: int)
    requires
        open.len() > 0,
        0 <= j <= tile::escaped(s, open).len(),
        forall|i: int| 0 <= i < j ==> #[trigger] tile::escaped(s, open)[i] != open[0],
    ensures
        j <= s.len(),
        forall|i: int| 0 <= i < j ==> #[trigger] tile::escaped(s, open)[i] == s[i],
    decreases s.len(),
{
    if j > 0 {
        assert(s.len() > 0);
        let whole = tile::escaped(s, open);
        if chars::stands_at(s, 0, open) {
            assert(whole[0] == open[0]);
        }
        let rest = tile::escaped(s.skip(1), open);
        assert(whole == seq![s[0]] + rest);
        assert forall|i: int| 0 <= i < j - 1 implies #[trigger] rest[i] != open[0] by {
            assert(whole[i + 1] == rest[i]);
        }
        lemma_escaped_prefix(s.skip(1), open, j - 1);
        assert forall|i: int| 0 <= i < j implies #[trigger] whole[i] == s[i] by {
            if i > 0 {
                assert(whole[i] == rest[i - 1]);
                assert(s.skip(1)[i - 1] == s[i]);
            }
        }
    }
}

/// A text of which no hole opens at its start does not have one opened
/// there once it is written, whatever follows.
proof fn lemma_not_opened(full: Seq<char>, o: OptionsV, pos: int, s: Seq<char>)
    requires
        distinct_opener(o),
        s.len() > 0,
        !chars::stands_at(s, 0, o.open),
        0 <= pos,
        pos + tile::escaped(s, o.open).len() <= full.len(),
        full.subrange(pos, pos + tile::escaped(s, o.open).len()) == tile::escaped(s, o.open),
        pos + tile::escaped(s, o.open).len() == full.len() || chars::stands_at(
            full,
            pos + tile::escaped(s, o.open).len(),
            o.open,
        ),
    ensures
        !chars::stands_at(full, pos, o.open),
{
    let open = o.open;
    let m = open.len();
    let whole = tile::escaped(s, open);
    let rest = tile::escaped(s.skip(1), open);
    assert(whole == seq![s[0]] + rest);
    if chars::stands_at(full, pos, open) {
        let seen = full.subrange(pos, pos + m);
        assert forall|i: int| 0 <= i < m && i < whole.len() implies #[trigger] whole[i]
            == open[i] by {
            assert(full.subrange(pos, pos + whole.len())[i] == full[pos + i]);
            assert(seen[i] == full[pos + i]);
        }
        if m > whole.len() {
            let e = pos + whole.len();
            if e < full.len() {
                assert(full.subrange(e, e + m)[0] == full[e]);
                assert(seen[whole.len() as int] == full[e]);
                assert(open[whole.len() as int] != open[0]);
            }
        } else {
            assert(whole[0] == open[0]);
            assert forall|i: int| 0 <= i < m - 1 implies #[trigger] rest[i] != open[0] by {
                assert(whole[i + 1] == rest[i]);
                assert(open[i + 1] != open[0]);
            }
            lemma_escaped_prefix(s.skip(1), open, m - 1);
            assert(s.len() >= m);
            assert forall|i: int| 0 <= i < m implies s[i] == open[i] by {
                assert(whole[i] == open[i]);
                if i > 0 {
                    assert(whole[i] == rest[i - 1]);
                    assert(s.skip(1)[i - 1] == s[i]);
                }
            }
            assert(s.subrange(0, m as int) =~= open);
        }
    }
}

/// A text that was written is read back.
proof fn lemma_static<G: Grammar>(
    g: G,
    full: Seq<char>,
    o: OptionsV,
    span: Span,
    pos: int,
    s: Seq<char>,
    buf: Seq<char>,
    out: Seq<PieceV>,
)
    requires
        distinct_opener(o),
        quiet(full, o),
        0 <= pos,
        pos + tile::escaped(s, o.open).len() <= full.len(),
        full.subrange(pos, pos + tile::escaped(s, o.open).len()) == tile::escaped(s, o.open),
        pos + tile::escaped(s, o.open).len() == full.len() || chars::stands_at(
            full,
            pos + tile::escaped(s, o.open).len(),
            o.open,
        ),
    ensures
        tile::pieces(g, full, o, span, false, pos, 0, buf, out) == tile::pieces(
            g,
            full,
            o,
            span,
            false,
            pos + tile::escaped(s, o.open).len(),
            0,
            buf + s,
            out,
        ),
    decreases s.len(),
{
    let open = o.open;
    let m = open.len();
    let whole = tile::escaped(s, open);
    if s.len() == 0 {
        assert(buf + s =~= buf);
    } else if chars::stands_at(s, 0, open) {
        let tail = s.skip(m as int);
        let rest = tile::escaped(tail, open);
        assert(whole == open + open + rest);
        assert(full.subrange(pos, pos + 2 * m) =~= open + open) by {
            assert forall|i: int| 0 <= i < 2 * m implies full.subrange(pos, pos + 2 * m)[i] == (
            open + open)[i] by {
                assert(full.subrange(pos, pos + whole.len())[i] == whole[i]);
            }
        }
        assert(chars::stands_at(full, pos, open + open));
        assert(full.subrange(pos + 2 * m, pos + 2 * m + rest.len()) =~= rest) by {
            assert forall|i: int| 0 <= i < rest.len() implies full.subrange(
                pos + 2 * m,
                pos + 2 * m + rest.len(),
            )[i] == rest[i] by {
                assert(full.subrange(pos, pos + whole.len())[2 * m + i] == whole[2 * m + i]);
            }
        }
        lemma_static(g, full, o, span, pos + 2 * m, tail, buf + open, out);
        assert(s =~= open + tail) by {
            assert(s.subrange(0, m as int) == open);
        }
        assert(buf + open + tail =~= buf + s);
    } else {
        let tail = s.skip(1);
        let rest = tile::escaped(tail, open);
        assert(whole == seq![s[0]] + rest);
        lemma_not_opened(full, o, pos, s);
        if chars::stands_at(full, pos, open + open) {
            assert(full.subrange(pos, pos + m) =~= open) by {
                assert forall|i: int| 0 <= i < m implies full.subrange(pos, pos + m)[i]
                    == open[i] by {
                    assert(full.subrange(pos, pos + (open + open).len())[i] == (open + open)[i]);
                }
            }
            assert(false);
        }
        assert(full[pos] == s[0]) by {
            assert(full.subrange(pos, pos + whole.len())[0] == whole[0]);
        }
        assert(!tile::directive_at(full, o, pos, "for"@));
        let d = if full[pos] == '{' {
            1int
        } else if full[pos] == '}' {
            -1int
        } else {
            0int
        };
        lemma_depth(g, full, o, span, pos + 1, d, 0, buf.push(full[pos]), out);
        assert(full.subrange(pos + 1, pos + 1 + rest.len()) =~= rest) by {
            assert forall|i: int| 0 <= i < rest.len() implies full.subrange(
                pos + 1,
                pos + 1 + rest.len(),
            )[i] == rest[i] by {
                assert(full.subrange(pos, pos + whole.len())[1 + i] == whole[1 + i]);
            }
        }
        lemma_static(g, full, o, span, pos + 1, tail, buf.push(s[0]), out);
        assert(buf.push(s[0]) + tail =~= buf + s);
    }
}

/// The end of a hole is found in a longer text where it is found in its own.
pub proof fn lemma_closing(
    full: Seq<char>,
    part: Seq<char>,
    close: Seq<char>,
    at: int,
    i: int,
    depth: int,
    quote: Option<char>,
    buf: Seq<char>,
)
    requires
        0 <= at,
        0 <= i,
        at + part.len() <= full.len(),
        full.subrange(at, at + part.len()) == part,
        tile::closing(part, close, i, depth, quote, buf).1 is Some,
        tile::closing(part, close, i, depth, quote, buf).0 == part.len(),
    ensures
        tile::closing(full, close, at + i, depth, quote, buf) == (
            at + part.len(),
            tile::closing(part, close, i, depth, quote, buf).1,
        ),
    decreases part.len() - i,
{
    if i < part.len() {
        let c = part[i];
        assert(full[at + i] == c) by {
            assert(full.subrange(at, at + part.len())[i] == c);
        }
        match quote {
            Some(q) => {
                if c == '\\' && i + 1 < part.len() {
                    assert(full[at + i + 1] == part[i + 1]) by {
                        assert(full.subrange(at, at + part.len())[i + 1] == part[i + 1]);
                    }
                    lemma_closing(
                        full,
                        part,
                        close,
                        at,
                        i + 2,
                        depth,
                        quote,
                        buf.push(c).push(part[i + 1]),
                    );
                } else if i + 1 < part.len() {
                    let next = if c == q {
                        None
                    } else {
                        quote
                    };
                    lemma_closing(full, part, close, at, i + 1, depth, next, buf.push(c));
                } else {
                    assert(tile::closing(part, close, i + 1, depth, quote, buf.push(c)).1 is None);
                    assert(tile::closing(part, close, i + 1, depth, None, buf.push(c)).1 is None);
                }
            },
            None => {
                if depth == 0 && chars::stands_at(part, i, close) {
                    assert(i + close.len() == part.len());
                    assert(full.subrange(at + i, at + i + close.len()) =~= part.subrange(
                        i,
                        i + close.len(),
                    ));
                } else {
                    let d = if tile::opens_quote(c) is Some {
                        depth
                    } else {
                        tile::deeper(c, depth)
                    };
                    let next = tile::closing(part, close, i + 1, d, tile::opens_quote(c), buf.push(c));
                    assert(tile::closing(part, close, i, depth, quote, buf) == next);
                    lemma_closing_long(part, close, i + 1, d, tile::opens_quote(c), buf.push(c));
                    if depth == 0 && chars::stands_at(full, at + i, close) {
                        assert(part.subrange(i, i + close.len()) =~= full.subrange(
                            at + i,
                            at + i + close.len(),
                        ));
                        assert(false);
                    }
                    lemma_closing(
                        full,
                        part,
                        close,
                        at,
                        i + 1,
                        d,
                        tile::opens_quote(c),
                        buf.push(c),
                    );
                }
            },
        }
    }
}

/// What is closed at the end has room for what closes it.
proof fn lemma_closing_long(
    part: Seq<char>,
    close: Seq<char>,
    i: int,
    depth: int,
    quote: Option<char>,
    buf: Seq<char>,
)
    requires
        0 <= i,
        tile::closing(part, close, i, depth, quote, buf).1 is Some,
        tile::closing(part, close, i, depth, quote, buf).0 == part.len(),
    ensures
        i + close.len() <= part.len(),
    decreases part.len() - i,
{
    if i < part.len() {
        let c = part[i];
        match quote {
            Some(q) => {
                if c == '\\' && i + 1 < part.len() {
                    lemma_closing_long(
                        part,
                        close,
                        i + 2,
                        depth,
                        quote,
                        buf.push(c).push(part[i + 1]),
                    );
                } else if c == q {
                    lemma_closing_long(part, close, i + 1, depth, None, buf.push(c));
                } else {
                    lemma_closing_long(part, close, i + 1, depth, quote, buf.push(c));
                }
            },
            None => {
                if !(depth == 0 && chars::stands_at(part, i, close)) {
                    let d = if tile::opens_quote(c) is Some {
                        depth
                    } else {
                        tile::deeper(c, depth)
                    };
                    lemma_closing_long(part, close, i + 1, d, tile::opens_quote(c), buf.push(c));
                }
            },
        }
    }
}

/// A hole that was written is read back.
proof fn lemma_hole<G: Grammar>(
    g: G,
    full: Seq<char>,
    o: OptionsV,
    span: Span,
    pos: int,
    h: HoleV,
    buf: Seq<char>,
    out: Seq<PieceV>,
)
    requires
        distinct_opener(o),
        hole_legible(g, o, span, h),
        0 <= pos,
        pos + (o.open + h.text + o.close).len() <= full.len(),
        full.subrange(pos, pos + (o.open + h.text + o.close).len()) == o.open + h.text + o.close,
    ensures
        tile::pieces(g, full, o, span, false, pos, 0, buf, out) == tile::pieces(
            g,
            full,
            o,
            span,
            false,
            pos + (o.open + h.text + o.close).len(),
            0,
            Seq::empty(),
            tile::flushed(out, buf).push(PieceV::Hole(h)),
        ),
{
    let open = o.open;
    let m = open.len();
    let whole = open + h.text + o.close;
    let part = h.text + o.close;
    assert(chars::trim(h.text).len() > 0);
    lemma_trim_len(h.text);
    assert(full.subrange(pos, pos + m) =~= open) by {
        assert forall|i: int| 0 <= i < m implies full.subrange(pos, pos + m)[i] == open[i] by {
            assert(full.subrange(pos, pos + whole.len())[i] == whole[i]);
        }
    }
    assert(full.subrange(pos + m, pos + m + part.len()) =~= part) by {
        assert forall|i: int| 0 <= i < part.len() implies full.subrange(
            pos + m,
            pos + m + part.len(),
        )[i] == part[i] by {
            assert(full.subrange(pos, pos + whole.len())[m + i] == whole[m + i]);
        }
    }
    if chars::stands_at(full, pos, open + open) {
        assert(full.subrange(pos, pos + 2 * m)[m as int] == (open + open)[m as int]);
        assert(full[pos + m] == open[0]);
        assert(full.subrange(pos + m, pos + m + part.len())[0] == full[pos + m]);
        assert(part[0] == h.text[0]);
        assert(false);
    }
    lemma_closing(full, part, o.close, pos + m, 0, 0, None, Seq::empty());
    assert(whole.len() == m + part.len());
}

/// What is left of a text without the white space around is no longer.
pub proof fn lemma_trim_len(s: Seq<char>)
    ensures
        chars::trim(s).len() <= s.len(),
{
    lemma_trim_start_len(s);
    lemma_trim_end_len(chars::trim_start(s));
    lemma_trim_end_len(s);
    lemma_trim_start_len(chars::trim_end(s));
}

/// The same of its start.
proof fn lemma_trim_start_len(s: Seq<char>)
    ensures
        chars::trim_start(s).len() <= s.len(),
    decreases s.len(),
{
    if s.len() > 0 && chars::is_space(s[0]) {
        lemma_trim_start_len(s.drop_first());
        lemma_trim_start_len(s.skip(1));
    }
}

/// The same of its end.
proof fn lemma_trim_end_len(s: Seq<char>)
    ensures
        chars::trim_end(s).len() <= s.len(),
    decreases s.len(),
{
    if s.len() > 0 && chars::is_space(s.last()) {
        lemma_trim_end_len(s.drop_last());
    }
}

/// What is written of the first pieces leads what is written of all.
proof fn lemma_rendered_prefix(ps: Seq<PieceV>, o: OptionsV, k: int)
    requires
        0 <= k <= ps.len(),
    ensures
        tile::rendered(ps.take(k), o).len() <= tile::rendered(ps, o).len(),
        tile::rendered(ps, o).take(tile::rendered(ps.take(k), o).len() as int) == tile::rendered(
            ps.take(k),
            o,
        ),
    decreases ps.len(),
{
    if k == ps.len() {
        assert(ps.take(k) =~= ps);
        assert(tile::rendered(ps, o).take(tile::rendered(ps, o).len() as int) =~= tile::rendered(
            ps,
            o,
        ));
    } else {
        let front = ps.drop_last();
        lemma_rendered_prefix(front, o, k);
        assert(front.take(k) =~= ps.take(k));
        let a = tile::rendered(front, o);
        let n = tile::rendered(ps.take(k), o).len() as int;
        assert(tile::rendered(ps, o) == a + tile::rendered_piece(ps.last(), o));
        assert(tile::rendered(ps, o).take(n) =~= a.take(n));
    }
}

/// A piece stands where it was written.
pub proof fn lemma_piece_stands(ps: Seq<PieceV>, o: OptionsV, k: int)
    requires
        0 <= k < ps.len(),
    ensures
        ({
            let full = tile::rendered(ps, o);
            let at = tile::rendered(ps.take(k), o).len();
            let p = tile::rendered_piece(ps[k], o);
            &&& tile::rendered(ps.take(k + 1), o).len() == at + p.len()
            &&& at + p.len() <= full.len()
            &&& full.subrange(at as int, (at + p.len()) as int) == p
        }),
{
    let full = tile::rendered(ps, o);
    let a = tile::rendered(ps.take(k), o);
    let p = tile::rendered_piece(ps[k], o);
    assert(ps.take(k + 1).drop_last() =~= ps.take(k));
    assert(ps.take(k + 1).last() == ps[k]);
    assert(tile::rendered(ps.take(k + 1), o) == a + p);
    lemma_rendered_prefix(ps, o, k + 1);
    let n = a.len() as int;
    assert forall|i: int| 0 <= i < p.len() implies full.subrange(n, n + p.len())[i] == p[i] by {
        assert(full.take(n + p.len())[n + i] == (a + p)[n + i]);
    }
    assert(full.subrange(n, n + p.len()) =~= p);
}

/// The text that was gathered behind `k` pieces.
pub open spec fn gathered(ps: Seq<PieceV>, k: int) -> Seq<char> {
    if k > 0 && ps[k - 1] is Static {
        ps[k - 1]->Static_0
    } else {
        Seq::empty()
    }
}

/// What was read behind `k` pieces, without that text.
pub open spec fn settled(ps: Seq<PieceV>, k: int) -> Seq<PieceV> {
    if k > 0 && ps[k - 1] is Static {
        ps.take(k - 1)
    } else {
        ps.take(k)
    }
}

/// The first `k` pieces are read back.
proof fn lemma_read<G: Grammar>(g: G, ps: Seq<PieceV>, o: OptionsV, span: Span, k: int)
    requires
        distinct_opener(o),
        legible(g, o, span, ps),
        quiet(tile::rendered(ps, o), o),
        0 <= k <= ps.len(),
    ensures
        tile::pieces(
            g,
            tile::rendered(ps, o),
            o,
            span,
            false,
            0,
            0,
            Seq::empty(),
            Seq::empty(),
        ) == tile::pieces(
            g,
            tile::rendered(ps, o),
            o,
            span,
            false,
            tile::rendered(ps.take(k), o).len() as int,
            0,
            gathered(ps, k),
            settled(ps, k),
        ),
    decreases k,
{
    let full = tile::rendered(ps, o);
    if k == 0 {
        assert(ps.take(0) =~= Seq::<PieceV>::empty());
    } else {
        lemma_read(g, ps, o, span, k - 1);
        lemma_piece_stands(ps, o, k - 1);
        let at = tile::rendered(ps.take(k - 1), o).len() as int;
        let buf = gathered(ps, k - 1);
        let out = settled(ps, k - 1);
        match ps[k - 1] {
            PieceV::Static(s) => {
                assert(buf =~= Seq::<char>::empty()) by {
                    if k > 1 {
                        assert(!(ps[k - 2] is Static && ps[k - 2 + 1] is Static));
                    }
                }
                let e = at + tile::escaped(s, o.open).len();
                if k < ps.len() {
                    lemma_piece_stands(ps, o, k);
                    assert(!(ps[k - 1] is Static && ps[k - 1 + 1] is Static));
                    assert(ps[k] is Hole);
                    let h = ps[k]->Hole_0;
                    let next = o.open + h.text + o.close;
                    assert(full.subrange(e, e + o.open.len()) =~= o.open) by {
                        assert forall|i: int| 0 <= i < o.open.len() implies full.subrange(
                            e,
                            e + o.open.len(),
                        )[i] == o.open[i] by {
                            assert(full.subrange(e, e + next.len())[i] == next[i]);
                        }
                    }
                } else {
                    assert(ps.take(k) =~= ps);
                }
                lemma_static(g, full, o, span, at, s, buf, out);
                assert(buf + s =~= s);
                assert(out =~= ps.take(k - 1));
            },
            PieceV::Hole(h) => {
                lemma_hole(g, full, o, span, at, h, buf, out);
                let flushed = tile::flushed(out, buf);
                if k > 1 && ps[k - 2] is Static {
                    assert(flushed =~= ps.take(k - 1));
                } else {
                    assert(flushed =~= ps.take(k - 1));
                }
                assert(ps.take(k - 1).push(ps[k - 1]) =~= ps.take(k));
            },
            _ => {},
        }
    }
}

/// What a template of texts and holes is written to is read back as that
/// template.
pub proof fn law_plain_template_round_trip<G: Grammar>(
    g: G,
    ps: Seq<PieceV>,
    o: OptionsV,
    span: Span,
)
    requires
        distinct_opener(o),
        legible(g, o, span, ps),
        quiet(tile::rendered(ps, o), o),
    ensures
        tile::template_of(g, tile::rendered(ps, o), o, span) == Ok::<Seq<PieceV>, Seq<char>>(ps),
{
    let n = ps.len() as int;
    lemma_read(g, ps, o, span, n);
    assert(ps.take(n) =~= ps);
    if n > 0 && ps[n - 1] is Static {
        assert(ps.take(n - 1).push(ps[n - 1]) =~= ps);
    }
}

} // verus!
