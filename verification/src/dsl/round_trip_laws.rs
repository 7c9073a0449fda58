//! Reading and writing a template in turn.
use crate::chars;
use crate::dsl::ast::Span;
use crate::dsl::directive_laws;
use crate::dsl::header_laws;
use crate::dsl::reading_laws;
use crate::dsl::template::{ForSourceV, HoleV, OptionsV, PieceV, ReadingV};
use crate::dsl::template_laws;
use crate::dsl::tile;
use crate::dsl::tile::Grammar;
use vstd::prelude::*;

verus! {

// ---------------------------------------------------------------------
// Texts
// ---------------------------------------------------------------------

/// Whether what stands behind a text cannot belong to a mark that begins in
/// the text: nothing, a space, what opens a hole, or what begins a directive
/// with a word behind it.
pub open spec fn limits(full: Seq<char>, o: OptionsV, next: Seq<char>, end: int) -> bool {
    ||| next.len() == 0 && end == full.len()
    ||| next == seq![' ']
    ||| next == o.open
    ||| next == o.sigil && 0 <= end < full.len() && chars::is_word(full[end])
}

/// What stands in a text and does not reach beyond a part of it stands in
/// the part.
proof fn lemma_stands_within(full: Seq<char>, base: int, part: Seq<char>, q: int, w: Seq<char>)
    requires
        chars::stands_at(full, base, part),
        chars::stands_at(full, base + q, w),
        0 <= q,
        q + w.len() <= part.len(),
    ensures
        chars::stands_at(part, q, w),
{
    let seen = full.subrange(base, base + part.len());
    assert(part.subrange(q, q + w.len()) =~= seen.subrange(q, q + w.len()));
    assert(seen.subrange(q, q + w.len()) =~= full.subrange(base + q, base + q + w.len()));
}

/// What opens a hole does not reach beyond what limits a text.
proof fn lemma_open_within(
    full: Seq<char>,
    o: OptionsV,
    base: int,
    part: Seq<char>,
    next: Seq<char>,
    q: int,
)
    requires
        reading_laws::apart(o),
        chars::stands_at(full, base, part),
        0 <= q < part.len() - next.len(),
        chars::ends(part, next),
        limits(full, o, next, base + part.len()),
        chars::stands_at(full, base + q, o.open),
    ensures
        chars::stands_at(part, q, o.open),
{
    let m = o.open.len() as int;
    let p = part.len() as int;
    let e = p - next.len();
    let seen = full.subrange(base + q, base + q + m);
    if q + m > p {
        if next == seq![' '] {
            assert(part.subrange(e, p)[0] == ' ');
            assert(full.subrange(base, base + p)[e] == full[base + e]);
            assert(seen[e - q] == full[base + e]);
            assert(reading_laws::mark(o.open[e - q]));
            assert(chars::is_space(' '));
        } else if next == o.sigil && !(next == o.open) {
            assert(seen[p - q] == full[base + p]);
            assert(reading_laws::mark(o.open[p - q]));
        }
        assert(false);
    }
    lemma_stands_within(full, base, part, q, o.open);
}

/// The characters of a directive: marks, then a word, then a space.
proof fn lemma_directive_at(full: Seq<char>, o: OptionsV, at: int, word: Seq<char>, j: int)
    requires
        reading_laws::apart(o),
        reading_laws::is_directive(word),
        tile::directive_at(full, o, at, word),
        0 <= j <= o.sigil.len() + word.len(),
    ensures
        0 <= at,
        at + o.sigil.len() + word.len() < full.len(),
        j < o.sigil.len() ==> full[at + j] == o.sigil[j] && reading_laws::mark(full[at + j]),
        o.sigil.len() <= j < o.sigil.len() + word.len() ==> full[at + j] == word[j
            - o.sigil.len()] && chars::is_word(full[at + j]),
        j == o.sigil.len() + word.len() ==> chars::is_space(full[at + j]),
{
    let n = o.sigil.len() as int;
    reading_laws::lemma_words();
    if j < n {
        assert(full.subrange(at, at + n)[j] == full[at + j]);
        assert(reading_laws::mark(o.sigil[j]));
    } else if j < n + word.len() {
        assert(full.subrange(at + n, at + n + word.len())[j - n] == full[at + j]);
        assert(chars::is_word(word[j - n]));
    }
}

/// A directive does not reach beyond what limits a text.
proof fn lemma_directive_within(
    full: Seq<char>,
    o: OptionsV,
    base: int,
    part: Seq<char>,
    next: Seq<char>,
    q: int,
    word: Seq<char>,
)
    requires
        reading_laws::apart(o),
        reading_laws::is_directive(word),
        chars::stands_at(full, base, part),
        0 <= q < part.len() - next.len(),
        chars::ends(part, next),
        limits(full, o, next, base + part.len()),
        tile::directive_at(full, o, base + q, word),
    ensures
        tile::directive_at(part, o, q, word),
{
    let n = o.sigil.len() as int;
    let m = o.open.len() as int;
    let p = part.len() as int;
    let e = p - next.len();
    let a = e - q;
    let all = n + word.len() + 1;
    let at = base + q;
    reading_laws::lemma_words();
    assert(!chars::is_word(' '));
    assert(chars::is_space(' '));
    lemma_directive_at(full, o, at, word, 0);
    if q + all > p {
        assert forall|j: int| 0 <= j < next.len() implies full[at + a + j] == #[trigger] next[j] by {
            assert(part.subrange(e, p)[j] == part[e + j]);
            assert(full.subrange(base, base + p)[e + j] == full[base + e + j]);
        }
        if next == seq![' '] {
            assert(full[at + a] == next[0]);
            lemma_directive_at(full, o, at, word, a);
        } else if next == o.open {
            assert(full[at + a + (m - 1)] == next[m - 1]);
            assert(reading_laws::mark(o.open[m - 1]));
            lemma_directive_at(full, o, at, word, a + m - 1);
            assert(a + m - 1 < n);
            assert(o.sigil.subrange(a, a + m) =~= o.open) by {
                assert forall|j: int| 0 <= j < m implies o.sigil[a + j] == #[trigger] o.open[j] by {
                    assert(full[at + a + j] == next[j]);
                    lemma_directive_at(full, o, at, word, a + j);
                }
            }
            assert(chars::stands_at(o.sigil, a, o.open));
        } else if next == o.sigil {
            let j = if a <= n {
                n
            } else {
                a
            };
            assert(full[at + a + (j - a)] == next[j - a]);
            assert(reading_laws::mark(o.sigil[j - a]));
            lemma_directive_at(full, o, at, word, j);
        }
        assert(false);
    }
    lemma_stands_within(full, base, part, q, o.sigil);
    lemma_stands_within(full, base, part, q + n, word);
    assert(full.subrange(base, base + p)[q + n + word.len()] == full[at + n + word.len()]);
}

/// Neither a hole nor a directive begins in a text that is calm before what
/// limits it.
proof fn lemma_text_unmarked(
    full: Seq<char>,
    o: OptionsV,
    base: int,
    part: Seq<char>,
    next: Seq<char>,
    q: int,
    s: Seq<char>,
)
    requires
        reading_laws::apart(o),
        chars::stands_at(full, base, part),
        0 <= q,
        q + tile::escaped(s, o.open).len() == part.len() - next.len(),
        chars::ends(part, next),
        limits(full, o, next, base + part.len()),
        directive_laws::unmarked(part, o, q, s),
    ensures
        directive_laws::unmarked(full, o, base + q, s),
    decreases s.len(),
{
    if s.len() > 0 {
        let m = o.open.len() as int;
        if chars::stands_at(s, 0, o.open) {
            lemma_text_unmarked(full, o, base, part, next, q + 2 * m, s.skip(m));
        } else {
            lemma_text_unmarked(full, o, base, part, next, q + 1, s.skip(1));
            if chars::stands_at(full, base + q, o.open) {
                lemma_open_within(full, o, base, part, next, q);
            }
            if tile::directive_at(full, o, base + q, "for"@) {
                lemma_directive_within(full, o, base, part, next, q, "for"@);
            }
            if tile::directive_at(full, o, base + q, "if"@) {
                lemma_directive_within(full, o, base, part, next, q, "if"@);
            }
        }
    }
}

/// A text that is calm before what follows it stands as it is written.
proof fn lemma_calm_stands(full: Seq<char>, o: OptionsV, at: int, s: Seq<char>, next: Seq<char>)
    requires
        reading_laws::apart(o),
        reading_laws::calm(s, o, next),
        chars::stands_at(full, at, tile::escaped(s, o.open)),
        chars::stands_at(full, at + tile::escaped(s, o.open).len(), next),
        limits(full, o, next, at + tile::escaped(s, o.open).len() + next.len()),
    ensures
        directive_laws::unmarked(full, o, at, s),
{
    let own = tile::escaped(s, o.open);
    let part = own + next;
    assert(full.subrange(at, at + part.len()) =~= full.subrange(at, at + own.len())
        + full.subrange(at + own.len(), at + part.len()));
    assert(part.subrange(own.len() as int, part.len() as int) =~= next);
    lemma_text_unmarked(full, o, at, part, next, 0, s);
}

// ---------------------------------------------------------------------
// Headers
// ---------------------------------------------------------------------

/// What has no space stands in a text where it stands in a part that ends
/// with a space, and nowhere else.
proof fn lemma_stands_in_part(full: Seq<char>, at: int, part: Seq<char>, i: int, w: Seq<char>)
    requires
        chars::stands_at(full, at, part),
        part.len() > 0,
        part.last() == ' ',
        0 <= i < part.len(),
        forall|j: int| 0 <= j < w.len() ==> #[trigger] w[j] != ' ',
    ensures
        chars::stands_at(full, at + i, w) == chars::stands_at(part, i, w),
{
    let n = part.len() as int;
    let k = w.len() as int;
    assert(full.subrange(at, at + n) == part);
    if i + k <= n {
        assert(full.subrange(at + i, at + i + k) =~= full.subrange(at, at + n).subrange(i, i + k));
    } else if chars::stands_at(full, at + i, w) {
        let j = n - 1 - i;
        assert(full.subrange(at + i, at + i + k)[j] == full[at + n - 1]);
        assert(full.subrange(at, at + n)[n - 1] == full[at + n - 1]);
        assert(w[j] == ' ');
        assert(false);
    }
}

/// The end of a word is the same in a text as in a part behind it.
proof fn lemma_word_end_in_part(full: Seq<char>, at: int, part: Seq<char>, i: int)
    requires
        chars::stands_at(full, at, part),
        part.len() > 0,
        part.last() == ' ',
        0 <= i < part.len(),
    ensures
        tile::word_end(full, at + i) == at + tile::word_end(part, i),
        i <= tile::word_end(part, i) < part.len(),
    decreases part.len() - i,
{
    assert(full.subrange(at, at + part.len())[i] == full[at + i]);
    if chars::is_word(part[i]) {
        assert(!chars::is_word(' '));
        assert(i < part.len() - 1);
        lemma_word_end_in_part(full, at, part, i + 1);
    }
}

/// White space at the start of a text is what stands before its first other
/// character.
proof fn lemma_trim_start_is(s: Seq<char>, k: int)
    requires
        0 <= k < s.len(),
        forall|j: int| 0 <= j < k ==> chars::is_space(#[trigger] s[j]),
        !chars::is_space(s[k]),
    ensures
        chars::trim_start(s) == s.skip(k),
    decreases k,
{
    if k > 0 {
        assert(chars::is_space(s[0]));
        let t = s.drop_first();
        assert forall|j: int| 0 <= j < k - 1 implies chars::is_space(#[trigger] t[j]) by {
            assert(chars::is_space(s[j + 1]));
        }
        lemma_trim_start_is(t, k - 1);
        assert(t.skip(k - 1) =~= s.skip(k));
    } else {
        assert(s.skip(0) =~= s);
    }
}

/// What stands behind white space is the same in a text as in a part.
proof fn lemma_rest_in_part(full: Seq<char>, at: int, part: Seq<char>, i: int) -> (k: int)
    requires
        chars::stands_at(full, at, part),
        part.len() > 1,
        part.last() == ' ',
        part[part.len() - 2] == '{',
        0 <= i < part.len() - 1,
    ensures
        i <= k < part.len() - 1,
        chars::trim_start(part.skip(i)) == part.skip(k),
        chars::trim_start(full.skip(at + i)) == full.skip(at + k),
        full[at + k] == part[k],
{
    let n = part.len() as int;
    let t = part.skip(i);
    let c = reading_laws::lemma_trim_start_tail(t);
    assert(t[n - 2 - i] == '{');
    assert(!chars::is_space('{'));
    assert(c <= n - 2 - i) by {
        if c > n - 2 - i {
            assert(chars::is_space(t[n - 2 - i]));
        }
    }
    chars::lemma_trim_start_first(t);
    assert(t.skip(c) =~= part.skip(i + c));
    assert(!chars::is_space(t[c])) by {
        assert(t.skip(c)[0] == t[c]);
    }
    let f = full.skip(at + i);
    assert forall|j: int| 0 <= j <= c implies #[trigger] f[j] == t[j] by {
        assert(full.subrange(at, at + n)[i + j] == full[at + i + j]);
    }
    assert forall|j: int| 0 <= j < c implies chars::is_space(#[trigger] f[j]) by {
        assert(f[j] == t[j]);
    }
    assert(f[c] == t[c]);
    lemma_trim_start_is(f, c);
    assert(f.skip(c) =~= full.skip(at + i + c));
    i + c
}

/// A brace joins a header in a text where it does in the part that is the
/// header.
proof fn lemma_joins_in_part(
    full: Seq<char>,
    o: OptionsV,
    at: int,
    part: Seq<char>,
    i: int,
    buf: Seq<char>,
)
    requires
        reading_laws::apart(o),
        chars::stands_at(full, at, part),
        part.len() > 1,
        part.last() == ' ',
        part[part.len() - 2] == '{',
        0 <= i < part.len(),
        part[i] == '{',
    ensures
        tile::joins(full, o, at + i, buf) == tile::joins(part, o, i, buf),
{
    let n = part.len() as int;
    let here = full.subrange(at, at + n);
    assert(i + 1 < n);
    assert(here[i + 1] == full[at + i + 1]);
    lemma_word_end_in_part(full, at, part, i + 1);
    let end = tile::word_end(part, i + 1);
    assert(here[end] == full[at + end]);
    assert(tile::placeholder_size(full, at + i) == tile::placeholder_size(part, i));
    match tile::placeholder_size(part, i) {
        Some(size) => {
            let j = i + size;
            assert(part[j - 1] == '}');
            assert(j < n - 1);
            assert(here[j] == full[at + j]);
            let k = lemma_rest_in_part(full, at, part, j);
            assert forall|x: int| 0 <= x < o.sigil.len() implies #[trigger] o.sigil[x] != ' ' by {
                assert(reading_laws::mark(o.sigil[x]));
                assert(chars::is_space(' '));
            }
            assert forall|x: int| 0 <= x < o.open.len() implies #[trigger] o.open[x] != ' ' by {
                assert(reading_laws::mark(o.open[x]));
                assert(chars::is_space(' '));
            }
            lemma_stands_in_part(full, at, part, k, o.sigil);
            lemma_stands_in_part(full, at, part, k, o.open);
            header_laws::lemma_begins_end(full, at + k, o.sigil);
            header_laws::lemma_begins_end(part, k, o.sigil);
            header_laws::lemma_begins_end(full, at + k, o.open);
            header_laws::lemma_begins_end(part, k, o.open);
            assert(full.skip(at + k)[0] == part.skip(k)[0]);
            assert(full.skip(at + j) =~= full.skip(at + i + size));
        },
        None => {},
    }
}

/// A header is read in a text as it is in the part that is the header.
proof fn lemma_header_in_part(
    full: Seq<char>,
    o: OptionsV,
    span: Span,
    at: int,
    part: Seq<char>,
    i: int,
    depth: int,
    quote: Option<char>,
    buf: Seq<char>,
)
    requires
        reading_laws::apart(o),
        chars::stands_at(full, at, part),
        part.len() > 1,
        part.last() == ' ',
        part[part.len() - 2] == '{',
        0 <= i,
        tile::header(part, o, span, i, depth, quote, buf).1 is Ok,
    ensures
        tile::header(full, o, span, at + i, depth, quote, buf) == (
            at + tile::header(part, o, span, i, depth, quote, buf).0,
            tile::header(part, o, span, i, depth, quote, buf).1,
        ),
    decreases part.len() - i,
{
    let c = part[i];
    assert(i < part.len());
    assert(full.subrange(at, at + part.len())[i] == full[at + i]);
    match quote {
        Some(q) => {
            let next = if c == q {
                None
            } else {
                quote
            };
            lemma_header_in_part(full, o, span, at, part, i + 1, depth, next, buf.push(c));
        },
        None => {
            assert forall|x: int| 0 <= x < o.open.len() implies #[trigger] o.open[x] != ' ' by {
                assert(reading_laws::mark(o.open[x]));
                assert(chars::is_space(' '));
            }
            lemma_stands_in_part(full, at, part, i, o.open);
            if c == '{' {
                lemma_joins_in_part(full, o, at, part, i, buf);
            }
            if !(depth == 0 && c == '{' && !tile::joins(part, o, i, buf)) {
                let d = if c == '(' || c == '[' {
                    depth + 1
                } else if c == ')' || c == ']' {
                    depth - 1
                } else {
                    depth
                };
                lemma_header_in_part(
                    full,
                    o,
                    span,
                    at,
                    part,
                    i + 1,
                    d,
                    tile::opens_quote(c),
                    buf.push(c),
                );
            }
        },
    }
}

/// A legible header is read where it stands before its body.
proof fn lemma_header_stands(
    full: Seq<char>,
    o: OptionsV,
    span: Span,
    at: int,
    head: Seq<char>,
    body: Seq<PieceV>,
)
    requires
        reading_laws::apart(o),
        header_laws::header_legible(o, span, head),
        chars::stands_at(full, at, head + directive_laws::braced(body, o)),
    ensures
        directive_laws::header_stands(full, o, span, at, head),
{
    let part = header_laws::headed(head);
    let rest = tile::rendered(body, o) + seq![' ', '}'];
    assert(head + directive_laws::braced(body, o) =~= part + rest);
    directive_laws::lemma_parts_stand(full, at, part, rest);
    lemma_header_in_part(full, o, span, at, part, 0, 0, None, Seq::empty());
}

// ---------------------------------------------------------------------
// Runs of pieces
// ---------------------------------------------------------------------

/// Whether what is written of a hole cannot be taken for what opens one.
pub open spec fn unlike(o: OptionsV, h: HoleV) -> bool {
    let text = h.text + o.close;
    exists|i: int| 0 <= i < text.len() && i < o.open.len() && #[trigger] text[i] != o.open[i]
}

/// Whether a text is calm before the space at the end of a body.
pub open spec fn calm_at_end(body: Seq<PieceV>, o: OptionsV) -> bool {
    body.len() > 0 && body.last() is Static ==> reading_laws::calm(
        body.last()->Static_0,
        o,
        seq![' '],
    )
}

/// Whether the holes of a piece end where they are closed, its headers are
/// read as they are written, and its bodies end calmly.
pub open spec fn heads_legible<G: Grammar>(g: G, o: OptionsV, span: Span, p: PieceV) -> bool
    decreases p, 0nat,
{
    match p {
        PieceV::Projection(source, sep, body, _) => {
            let head = directive_laws::for_header(source, sep);
            &&& header_laws::header_legible(o, span, head)
            &&& tile::sep_split(head).1 == sep
            &&& g.source(chars::trim(tile::sep_split(head).0)) == Ok::<ForSourceV, Seq<char>>(
                source,
            )
            &&& body_legible(g, o, span, body)
        },
        PieceV::Branch(cond, yes, otherwise, _) => {
            let head = " "@ + cond.shown + " "@;
            &&& header_laws::header_legible(o, span, head)
            &&& g.expression(chars::trim(head)) == Ok::<ReadingV, Seq<char>>(cond)
            &&& body_legible(g, o, span, yes)
            &&& match otherwise {
                Some(no) => body_legible(g, o, span, no),
                None => true,
            }
        },
        PieceV::Hole(h) => reading_laws::hole_shut(o, h) && unlike(o, h),
        PieceV::Static(_) => true,
    }
}

/// Whether that holds of each of a run of pieces.
pub open spec fn run_legible<G: Grammar>(g: G, o: OptionsV, span: Span, ps: Seq<PieceV>) -> bool
    decreases ps, 1nat,
{
    forall|i: int| 0 <= i < ps.len() ==> heads_legible(g, o, span, #[trigger] ps[i])
}

/// Whether that holds of a body.
pub open spec fn body_legible<G: Grammar>(
    g: G,
    o: OptionsV,
    span: Span,
    body: Seq<PieceV>,
) -> bool
    decreases body, 2nat,
{
    &&& run_legible(g, o, span, body)
    &&& calm_at_end(body, o)
}

/// Whether a run ends at a place: with the template, or before the end of a
/// body.
pub open spec fn closed_off(full: Seq<char>, end: int) -> bool {
    end == full.len() || (0 <= end && end + 1 < full.len() && full[end] == ' ' && full[end + 1]
        == '}')
}

/// What follows the first pieces of a run: the next piece, or the end.
pub open spec fn follows(full: Seq<char>, o: OptionsV, ps: Seq<PieceV>, k: int, at: int) -> bool {
    if k < ps.len() {
        chars::stands_at(full, at, tile::rendered_piece(ps[k], o))
    } else {
        closed_off(full, at)
    }
}

/// Where marks and words stand no hole opens, as long as none opens in the
/// marks.
proof fn lemma_unopened(full: Seq<char>, o: OptionsV, at: int)
    requires
        reading_laws::apart(o),
        chars::stands_at(full, at, o.sigil),
        at + o.sigil.len() < full.len(),
        chars::is_word(full[at + o.sigil.len()]),
    ensures
        !chars::stands_at(full, at, o.open),
{
    let n = o.sigil.len() as int;
    let m = o.open.len() as int;
    if chars::stands_at(full, at, o.open) {
        if m <= n {
            assert(o.sigil.subrange(0, m) =~= full.subrange(at, at + n).subrange(0, m));
            assert(full.subrange(at, at + n).subrange(0, m) =~= full.subrange(at, at + m));
            assert(chars::stands_at(o.sigil, 0, o.open));
        } else {
            assert(full.subrange(at, at + m)[n] == full[at + n]);
            assert(reading_laws::mark(o.open[n]));
        }
        assert(false);
    }
}

/// A piece that is no text begins with its mark, and a directive goes on with
/// its word.
proof fn lemma_piece_begins(full: Seq<char>, o: OptionsV, at: int, p: PieceV)
    requires
        reading_laws::apart(o),
        !(p is Static),
        chars::stands_at(full, at, tile::rendered_piece(p, o)),
    ensures
        0 <= at < full.len(),
        chars::stands_at(full, at, reading_laws::opening(o, p)),
        !(p is Hole) ==> at + o.sigil.len() < full.len() && (full[at + o.sigil.len()] == 'f'
            || full[at + o.sigil.len()] == 'i') && !chars::stands_at(full, at, o.open),
{
    reading_laws::lemma_words();
    let n = o.sigil.len() as int;
    match p {
        PieceV::Hole(h) => {
            directive_laws::lemma_parts_stand(full, at, o.open + h.text, o.close);
            directive_laws::lemma_parts_stand(full, at, o.open, h.text);
        },
        PieceV::Projection(source, sep, body, span) => {
            directive_laws::lemma_projection_written(source, sep, body, span, o);
            let head = directive_laws::for_header(source, sep);
            directive_laws::lemma_parts_stand(
                full,
                at,
                o.sigil + "for"@ + head,
                directive_laws::braced(body, o),
            );
            directive_laws::lemma_parts_stand(full, at, o.sigil + "for"@, head);
            directive_laws::lemma_parts_stand(full, at, o.sigil, "for"@);
            directive_laws::lemma_first_stands(full, at + n, "for"@);
            lemma_unopened(full, o, at);
        },
        PieceV::Branch(cond, yes, otherwise, span) => {
            directive_laws::lemma_branch_written(cond, yes, otherwise, span, o);
            let head = " "@ + cond.shown + " "@;
            let tail = match otherwise {
                Some(no) => " "@ + (o.sigil + "else"@) + " "@ + directive_laws::braced(no, o),
                None => Seq::empty(),
            };
            let first = o.sigil + "if"@ + head + directive_laws::braced(yes, o);
            directive_laws::lemma_parts_stand(full, at, first, tail);
            directive_laws::lemma_parts_stand(
                full,
                at,
                o.sigil + "if"@ + head,
                directive_laws::braced(yes, o),
            );
            directive_laws::lemma_parts_stand(full, at, o.sigil + "if"@, head);
            directive_laws::lemma_parts_stand(full, at, o.sigil, "if"@);
            directive_laws::lemma_first_stands(full, at + n, "if"@);
            lemma_unopened(full, o, at);
        },
        _ => {},
    }
}

/// The characters of another branch: marks, then a word.
proof fn lemma_else_at(full: Seq<char>, o: OptionsV, q: int, j: int)
    requires
        reading_laws::apart(o),
        chars::stands_at(full, q, o.sigil + "else"@),
        0 <= j < o.sigil.len() + 4,
    ensures
        q + o.sigil.len() + 4 <= full.len(),
        j < o.sigil.len() ==> full[q + j] == o.sigil[j] && reading_laws::mark(full[q + j]),
        o.sigil.len() <= j ==> chars::is_word(full[q + j]),
        j == o.sigil.len() ==> full[q + j] == 'e',
{
    reading_laws::lemma_words();
    let other = o.sigil + "else"@;
    let n = o.sigil.len() as int;
    assert(full.subrange(q, q + other.len())[j] == full[q + j]);
    if j < n {
        assert(other[j] == o.sigil[j]);
        assert(reading_laws::mark(o.sigil[j]));
    } else {
        assert(other[j] == "else"@[j - n]);
        assert(chars::is_word("else"@[j - n]));
    }
}

/// No other branch begins where a piece that is no text stands in it.
proof fn lemma_no_else_across(full: Seq<char>, o: OptionsV, q: int, e: int, p: PieceV)
    requires
        reading_laws::apart(o),
        !(p is Static),
        chars::stands_at(full, e, tile::rendered_piece(p, o)),
        0 <= q <= e < q + o.sigil.len() + 4,
    ensures
        !chars::stands_at(full, q, o.sigil + "else"@),
{
    if chars::stands_at(full, q, o.sigil + "else"@) {
        let n = o.sigil.len() as int;
        let m = o.open.len() as int;
        let a = e - q;
        lemma_piece_begins(full, o, e, p);
        lemma_else_at(full, o, q, a);
        if p is Hole {
            let seen = full.subrange(e, e + m);
            assert(seen[0] == full[e]);
            assert(reading_laws::mark(o.open[0]));
            assert(a < n);
            if a + m <= n {
                assert(o.sigil.subrange(a, a + m) =~= o.open) by {
                    assert forall|j: int| 0 <= j < m implies o.sigil[a + j] == #[trigger] o.open[j] by {
                        assert(seen[j] == full[e + j]);
                        lemma_else_at(full, o, q, a + j);
                    }
                }
                assert(chars::stands_at(o.sigil, a, o.open));
            } else {
                assert(seen[n - a] == full[q + n]);
                assert(reading_laws::mark(o.open[n - a]));
                lemma_else_at(full, o, q, n);
            }
        } else {
            let seen = full.subrange(e, e + n);
            assert(seen[0] == full[e]);
            assert(reading_laws::mark(o.sigil[0]));
            assert(a < n);
            lemma_else_at(full, o, q, n);
            if a > 0 {
                assert(seen[n - a] == full[q + n]);
                assert(reading_laws::mark(o.sigil[n - a]));
            }
        }
        assert(false);
    }
}

/// No other branch begins where a run ends.
proof fn lemma_no_else_at_end(full: Seq<char>, o: OptionsV, at: int, end: int)
    requires
        reading_laws::apart(o),
        0 <= at <= end,
        closed_off(full, end),
        tile::after_space(full, at) + o.sigil.len() + 4 > end,
    ensures
        reading_laws::no_else(full, o, at),
{
    if !reading_laws::no_else(full, o, at) {
        reading_laws::lemma_after_space(full, at);
        let q = tile::after_space(full, at);
        lemma_else_at(full, o, q, 0);
        assert(chars::is_space(' '));
        assert(!chars::is_space('}'));
        assert(!chars::is_word(' '));
        if q <= end {
            lemma_else_at(full, o, q, end - q);
        } else if q > end + 1 {
            assert(chars::is_space(full[end + 1]));
        }
        assert(false);
    }
}

/// No other branch begins behind a branch without one.
proof fn lemma_no_else_follows<G: Grammar>(
    g: G,
    full: Seq<char>,
    o: OptionsV,
    span: Span,
    ps: Seq<PieceV>,
    k: int,
    at: int,
)
    requires
        reading_laws::apart(o),
        reading_laws::read_run(g, o, span, ps),
        0 < k <= ps.len(),
        reading_laws::lacks_else(ps[k - 1]),
        follows(full, o, ps, k, at),
        0 <= at,
        k < ps.len() ==> follows(
            full,
            o,
            ps,
            k + 1,
            at + tile::rendered_piece(ps[k], o).len(),
        ),
    ensures
        reading_laws::no_else(full, o, at),
{
    if k == ps.len() {
        reading_laws::lemma_after_space(full, at);
        lemma_no_else_at_end(full, o, at, at);
    } else if !(ps[k] is Static) {
        lemma_piece_begins(full, o, at, ps[k]);
        directive_laws::lemma_first_stands(full, at, reading_laws::opening(o, ps[k]));
        assert(reading_laws::mark(o.open[0]));
        assert(reading_laws::mark(o.sigil[0]));
        assert(tile::after_space(full, at) == at);
        lemma_no_else_across(full, o, at, at, ps[k]);
    } else if !reading_laws::no_else(full, o, at) {
        let s = ps[k]->Static_0;
        assert(reading_laws::may_follow(o, ps[k - 1], ps[k - 1 + 1]));
        let own = tile::escaped(s, o.open);
        let end = at + own.len();
        reading_laws::lemma_words();
        reading_laws::lemma_after_space(full, at);
        let q = tile::after_space(full, at);
        let stop = q + o.sigil.len() + 4;
        lemma_else_at(full, o, q, 0);
        if stop <= end {
            let n = stop - at;
            assert(own.subrange(0, n) =~= full.subrange(at, end).subrange(0, n));
            assert(full.subrange(at, end).subrange(0, n) =~= full.subrange(at, at + n));
            reading_laws::lemma_else_moved(full, own, o, at, 0);
        } else if k + 1 < ps.len() {
            assert(reading_laws::may_follow(o, ps[k], ps[k + 1]));
            lemma_piece_begins(full, o, end, ps[k + 1]);
            directive_laws::lemma_first_stands(full, end, reading_laws::opening(o, ps[k + 1]));
            assert(reading_laws::mark(o.open[0]));
            assert(reading_laws::mark(o.sigil[0]));
            if end < q {
                assert(chars::is_space(full[end]));
            }
            lemma_no_else_across(full, o, q, end, ps[k + 1]);
        } else {
            lemma_no_else_at_end(full, o, at, end);
        }
        assert(false);
    }
}

/// A hole stands as it is written.
proof fn lemma_hole_stands<G: Grammar>(
    g: G,
    full: Seq<char>,
    o: OptionsV,
    span: Span,
    at: int,
    h: HoleV,
)
    requires
        reading_laws::apart(o),
        reading_laws::hole_read(g, o, span, h),
        reading_laws::hole_shut(o, h),
        unlike(o, h),
        chars::stands_at(full, at, o.open + h.text + o.close),
    ensures
        directive_laws::hole_stands(g, full, o, span, at, h),
{
    let m = o.open.len() as int;
    let part = h.text + o.close;
    assert(o.open + h.text + o.close =~= o.open + part);
    directive_laws::lemma_parts_stand(full, at, o.open, part);
    if chars::stands_at(full, at, o.open + o.open) {
        directive_laws::lemma_parts_stand(full, at, o.open, o.open);
        let i = choose|i: int|
            0 <= i < part.len() && i < o.open.len() && #[trigger] part[i] != o.open[i];
        assert(full.subrange(at + m, at + m + part.len())[i] == full[at + m + i]);
        assert(full.subrange(at + m, at + m + m)[i] == full[at + m + i]);
    }
    template_laws::lemma_closing(full, part, o.close, at + m, 0, 0, None, Seq::empty());
}

/// A piece stands as it is written, before what follows it.
proof fn lemma_stands<G: Grammar>(
    g: G,
    full: Seq<char>,
    o: OptionsV,
    span: Span,
    ps: Seq<PieceV>,
    k: int,
    at: int,
)
    requires
        reading_laws::apart(o),
        reading_laws::read_run(g, o, span, ps),
        run_legible(g, o, span, ps),
        0 <= k < ps.len(),
        chars::stands_at(full, at, tile::rendered_piece(ps[k], o)),
        follows(full, o, ps, k + 1, at + tile::rendered_piece(ps[k], o).len()),
        k + 1 < ps.len() ==> follows(
            full,
            o,
            ps,
            k + 2,
            at + tile::rendered_piece(ps[k], o).len() + tile::rendered_piece(ps[k + 1], o).len(),
        ),
        k + 1 == ps.len() && at + tile::rendered_piece(ps[k], o).len() < full.len()
            ==> calm_at_end(ps, o),
    ensures
        directive_laws::piece_stands(g, full, o, span, at, ps[k]),
    decreases ps[k], 0nat,
{
    let p = ps[k];
    let end = at + tile::rendered_piece(p, o).len();
    assert(reading_laws::read_piece(g, o, span, p));
    assert(heads_legible(g, o, span, p));
    match p {
        PieceV::Static(s) => {
            if k + 1 < ps.len() {
                assert(reading_laws::may_follow(o, ps[k], ps[k + 1]));
                lemma_piece_begins(full, o, end, ps[k + 1]);
                lemma_calm_stands(full, o, at, s, reading_laws::opening(o, ps[k + 1]));
            } else if end == full.len() {
                assert(full.subrange(end, end) =~= Seq::<char>::empty());
                lemma_calm_stands(full, o, at, s, Seq::empty());
            } else {
                assert(full.subrange(end, end + 1) =~= seq![' ']);
                assert(ps.last() == p);
                lemma_calm_stands(full, o, at, s, seq![' ']);
            }
        },
        PieceV::Hole(h) => {
            lemma_hole_stands(g, full, o, span, at, h);
        },
        PieceV::Projection(source, sep, body, sp) => {
            let head = directive_laws::for_header(source, sep);
            let b = directive_laws::braced(body, o);
            let from = at + o.sigil.len() + 3;
            reading_laws::lemma_words();
            lemma_piece_begins(full, o, at, p);
            directive_laws::lemma_projection_written(source, sep, body, sp, o);
            assert(o.sigil + "for"@ + head + b =~= (o.sigil + "for"@) + (head + b));
            directive_laws::lemma_parts_stand(full, at, o.sigil + "for"@, head + b);
            lemma_header_stands(full, o, span, from, head, body);
            directive_laws::lemma_parts_stand(full, from, head, b);
            lemma_body_stands(g, full, o, span, from + head.len(), body);
        },
        PieceV::Branch(cond, yes, otherwise, sp) => {
            let head = " "@ + cond.shown + " "@;
            let b = directive_laws::braced(yes, o);
            let tail = match otherwise {
                Some(no) => " "@ + (o.sigil + "else"@) + " "@ + directive_laws::braced(no, o),
                None => Seq::empty(),
            };
            let from = at + o.sigil.len() + 2;
            let first = from + head.len();
            reveal_strlit(" ");
            reading_laws::lemma_words();
            lemma_piece_begins(full, o, at, p);
            directive_laws::lemma_branch_written(cond, yes, otherwise, sp, o);
            directive_laws::lemma_branch_stands(full, o, at, head, b, tail);
            let lead = o.sigil + "if"@ + head + b;
            directive_laws::lemma_parts_stand(full, at, lead, tail);
            assert(lead =~= (o.sigil + "if"@) + (head + b));
            directive_laws::lemma_parts_stand(full, at, o.sigil + "if"@, head + b);
            lemma_header_stands(full, o, span, from, head, yes);
            lemma_body_stands(g, full, o, span, first, yes);
            match otherwise {
                Some(no) => {
                    let q = first + b.len();
                    lemma_marks_clear(o);
                    directive_laws::lemma_else_stands(full, o, q, no);
                    lemma_body_stands(g, full, o, span, q + 2 + o.sigil.len() + 4, no);
                },
                None => {
                    assert(end == first + b.len());
                    lemma_no_else_follows(g, full, o, span, ps, k + 1, end);
                },
            }
        },
    }
}

/// Marks that are apart are clear.
proof fn lemma_marks_clear(o: OptionsV)
    requires
        reading_laws::apart(o),
    ensures
        directive_laws::clear_marks(o),
{
    assert(reading_laws::mark(o.open[0]));
    assert(reading_laws::mark(o.sigil[0]));
}

/// A body stands as it is written.
proof fn lemma_body_stands<G: Grammar>(
    g: G,
    full: Seq<char>,
    o: OptionsV,
    span: Span,
    at: int,
    body: Seq<PieceV>,
)
    requires
        reading_laws::apart(o),
        reading_laws::read_body(g, o, span, body),
        body_legible(g, o, span, body),
        chars::stands_at(full, at, directive_laws::braced(body, o)),
    ensures
        directive_laws::body_stands(g, full, o, span, at + 1, body),
    decreases body, body.len() + 1,
{
    let text = tile::rendered(body, o);
    let open = seq!['{', ' '];
    let close = seq![' ', '}'];
    directive_laws::lemma_parts_stand(full, at, open + text, close);
    directive_laws::lemma_parts_stand(full, at, open, text);
    let end = at + 2 + text.len();
    assert(full.subrange(end, end + 2)[0] == full[end]);
    assert(full.subrange(end, end + 2)[1] == full[end + 1]);
    lemma_run_stands(g, full, o, span, at + 2, body, body.len() as int);
    assert(body.take(body.len() as int) =~= body);
}

/// The first pieces of a run stand as they are written.
proof fn lemma_run_stands<G: Grammar>(
    g: G,
    full: Seq<char>,
    o: OptionsV,
    span: Span,
    at: int,
    ps: Seq<PieceV>,
    k: int,
)
    requires
        reading_laws::apart(o),
        reading_laws::read_run(g, o, span, ps),
        run_legible(g, o, span, ps),
        0 <= k <= ps.len(),
        chars::stands_at(full, at, tile::rendered(ps, o)),
        closed_off(full, at + tile::rendered(ps, o).len()),
        at + tile::rendered(ps, o).len() < full.len() ==> calm_at_end(ps, o),
    ensures
        directive_laws::run_stands(g, full, o, span, at, ps.take(k)),
    decreases ps, k,
{
    if k > 0 {
        let front = ps.take(k - 1);
        let here = ps.take(k);
        assert(here.drop_last() =~= front);
        assert(here.last() == ps[k - 1]);
        lemma_run_stands(g, full, o, span, at, ps, k - 1);
        lemma_place(full, o, at, ps, k - 1);
        lemma_place(full, o, at, ps, k);
        if k < ps.len() {
            lemma_place(full, o, at, ps, k + 1);
        }
        let a = at + tile::rendered(front, o).len();
        assert(decreases_to!(ps => ps[k - 1]));
        lemma_stands(g, full, o, span, ps, k - 1, a);
        if k > 1 {
            assert(here[k - 2] == ps[k - 2]);
            assert(reading_laws::may_follow(o, ps[k - 2], ps[k - 2 + 1]));
        }
    } else {
        assert(ps.take(0).len() == 0);
    }
}

/// What follows the first pieces of a run stands behind them.
proof fn lemma_place(full: Seq<char>, o: OptionsV, at: int, ps: Seq<PieceV>, k: int)
    requires
        0 <= k <= ps.len(),
        chars::stands_at(full, at, tile::rendered(ps, o)),
        closed_off(full, at + tile::rendered(ps, o).len()),
    ensures
        follows(full, o, ps, k, at + tile::rendered(ps.take(k), o).len()),
        k < ps.len() ==> tile::rendered(ps.take(k + 1), o).len() == tile::rendered(
            ps.take(k),
            o,
        ).len() + tile::rendered_piece(ps[k], o).len(),
{
    if k < ps.len() {
        template_laws::lemma_piece_stands(ps, o, k);
        let text = tile::rendered(ps, o);
        let n = tile::rendered(ps.take(k), o).len() as int;
        let p = tile::rendered_piece(ps[k], o);
        assert(full.subrange(at + n, at + n + p.len()) =~= full.subrange(
            at,
            at + text.len(),
        ).subrange(n, n + p.len()));
    } else {
        assert(ps.take(k) =~= ps);
    }
}

/// What a template that was read is written to is read as that template,
/// where its holes end where they are closed, its headers are read as they
/// are written, and its bodies end calmly.
pub proof fn law_legible_template_round_trip<G: Grammar>(
    g: G,
    text: Seq<char>,
    o: OptionsV,
    span: Span,
    ps: Seq<PieceV>,
)
    requires
        reading_laws::apart(o),
        tile::template_of(g, text, o, span) == Ok::<Seq<PieceV>, Seq<char>>(ps),
        run_legible(g, o, span, ps),
    ensures
        tile::template_of(g, tile::rendered(ps, o), o, span) == Ok::<Seq<PieceV>, Seq<char>>(ps),
{
    let none = Seq::<char>::empty();
    let nothing = Seq::<PieceV>::empty();
    assert(text.subrange(0, 0) =~= tile::escaped(none, o.open));
    reading_laws::lemma_pieces_read(g, text, o, span, false, 0, 0, 0, none, nothing);
    let full = tile::rendered(ps, o);
    assert(full.subrange(0, full.len() as int) =~= full);
    lemma_run_stands(g, full, o, span, 0, ps, ps.len() as int);
    assert(ps.take(ps.len() as int) =~= ps);
    lemma_marks_clear(o);
    directive_laws::law_template_round_trip(g, ps, o, span);
}

/// Whether an expression that was printed is read as that expression, as a
/// header and as it is.
pub open spec fn prints<G: Grammar>(g: G, o: OptionsV, span: Span) -> bool {
    forall|x: Seq<char>|
        (#[trigger] g.expression(x)) matches Ok(r) ==> {
            let head = " "@ + r.shown + " "@;
            &&& header_laws::header_legible(o, span, head)
            &&& g.expression(chars::trim(head)) == Ok::<ReadingV, Seq<char>>(r)
        }
}

/// Whether what a projection runs over keeps its text.
pub open spec fn keeps_sources<G: Grammar>(g: G) -> bool {
    forall|x: Seq<char>| (#[trigger] g.source(x)) matches Ok(s) ==> s.text == x
}

/// Whether the separators of a piece are told apart from what its
/// projections run over, and its bodies end calmly.
pub open spec fn told(o: OptionsV, p: PieceV) -> bool
    decreases p, 0nat,
{
    match p {
        PieceV::Projection(source, sep, body, _) => {
            let (text, found) = tile::sep_split(directive_laws::for_header(source, sep));
            &&& found == sep
            &&& chars::trim(text) == source.text
            &&& body_told(o, body)
        },
        PieceV::Branch(_, yes, otherwise, _) => {
            &&& body_told(o, yes)
            &&& match otherwise {
                Some(no) => body_told(o, no),
                None => true,
            }
        },
        _ => true,
    }
}

/// Whether that holds of a body.
pub open spec fn body_told(o: OptionsV, body: Seq<PieceV>) -> bool
    decreases body, 2nat,
{
    &&& forall|i: int| 0 <= i < body.len() ==> told(o, #[trigger] body[i])
    &&& calm_at_end(body, o)
}

/// The holes and headers of a piece that is read are read as they are
/// written.
proof fn lemma_heads_legible<G: Grammar>(g: G, o: OptionsV, span: Span, p: PieceV)
    requires
        reading_laws::apart(o),
        reading_laws::closes(o),
        reading_laws::sober(g, o),
        prints(g, o, span),
        keeps_sources(g),
        reading_laws::read_piece(g, o, span, p),
        told(o, p),
    ensures
        heads_legible(g, o, span, p),
    decreases p, 0nat,
{
    match p {
        PieceV::Projection(source, sep, body, _) => {
            let h = choose|h: Seq<char>| #[trigger]
                reading_laws::head_read(g, o, source, sep, h);
            let text = chars::trim(tile::sep_split(h).0);
            assert(source.text == text);
            header_laws::lemma_header_rewritten(o, h);
            let head = directive_laws::for_header(source, sep);
            assert(head == header_laws::rewritten(text, sep));
            header_laws::lemma_runs(o, span, head);
            lemma_body_legible(g, o, span, body);
        },
        PieceV::Branch(cond, yes, otherwise, _) => {
            let x = choose|x: Seq<char>| #[trigger] reading_laws::condition_read(g, cond, x);
            assert(g.expression(x) is Ok);
            lemma_body_legible(g, o, span, yes);
            match otherwise {
                Some(no) => lemma_body_legible(g, o, span, no),
                None => {},
            }
        },
        PieceV::Hole(h) => {
            let text = h.text + o.close;
            template_laws::lemma_trim_len(h.text);
            assert(text[0] == h.text[0]);
            assert(text[0] != o.open[0]);
        },
        PieceV::Static(_) => {},
    }
}

/// The headers of a body that is read are read as they are written.
proof fn lemma_body_legible<G: Grammar>(g: G, o: OptionsV, span: Span, body: Seq<PieceV>)
    requires
        reading_laws::apart(o),
        reading_laws::closes(o),
        reading_laws::sober(g, o),
        prints(g, o, span),
        keeps_sources(g),
        reading_laws::read_body(g, o, span, body),
        body_told(o, body),
    ensures
        body_legible(g, o, span, body),
    decreases body, 2nat,
{
    assert forall|i: int| 0 <= i < body.len() implies heads_legible(
        g,
        o,
        span,
        #[trigger] body[i],
    ) by {
        assert(reading_laws::read_piece(g, o, span, body[i]));
        assert(told(o, body[i]));
        lemma_heads_legible(g, o, span, body[i]);
    }
}

/// What a template that was read is written to is read as that template,
/// where its separators are told apart and its bodies end calmly.
pub proof fn law_read_template_round_trip<G: Grammar>(
    g: G,
    text: Seq<char>,
    o: OptionsV,
    span: Span,
    ps: Seq<PieceV>,
)
    requires
        reading_laws::apart(o),
        reading_laws::closes(o),
        reading_laws::sober(g, o),
        prints(g, o, span),
        keeps_sources(g),
        tile::template_of(g, text, o, span) == Ok::<Seq<PieceV>, Seq<char>>(ps),
        forall|i: int| 0 <= i < ps.len() ==> told(o, #[trigger] ps[i]),
    ensures
        tile::template_of(g, tile::rendered(ps, o), o, span) == Ok::<Seq<PieceV>, Seq<char>>(ps),
{
    let none = Seq::<char>::empty();
    let nothing = Seq::<PieceV>::empty();
    assert(text.subrange(0, 0) =~= tile::escaped(none, o.open));
    reading_laws::lemma_pieces_read(g, text, o, span, false, 0, 0, 0, none, nothing);
    assert forall|i: int| 0 <= i < ps.len() implies heads_legible(g, o, span, #[trigger] ps[i]) by {
        assert(reading_laws::read_piece(g, o, span, ps[i]));
        assert(told(o, ps[i]));
        lemma_heads_legible(g, o, span, ps[i]);
    }
    law_legible_template_round_trip(g, text, o, span, ps);
}

/// What a template without directives that was read is written to is read as
/// that template.
pub proof fn law_read_plain_round_trip<G: Grammar>(
    g: G,
    text: Seq<char>,
    o: OptionsV,
    span: Span,
    ps: Seq<PieceV>,
)
    requires
        reading_laws::apart(o),
        reading_laws::closes(o),
        reading_laws::sober(g, o),
        tile::template_of(g, text, o, span) == Ok::<Seq<PieceV>, Seq<char>>(ps),
        forall|i: int| 0 <= i < ps.len() ==> (#[trigger] ps[i]) is Static || ps[i] is Hole,
    ensures
        tile::template_of(g, tile::rendered(ps, o), o, span) == Ok::<Seq<PieceV>, Seq<char>>(ps),
{
    let none = Seq::<char>::empty();
    let nothing = Seq::<PieceV>::empty();
    assert(text.subrange(0, 0) =~= tile::escaped(none, o.open));
    reading_laws::lemma_pieces_read(g, text, o, span, false, 0, 0, 0, none, nothing);
    assert forall|i: int| 0 <= i < ps.len() implies heads_legible(g, o, span, #[trigger] ps[i]) by {
        assert(reading_laws::read_piece(g, o, span, ps[i]));
        if ps[i] is Hole {
            let h = ps[i]->Hole_0;
            let written = h.text + o.close;
            template_laws::lemma_trim_len(h.text);
            assert(written[0] == h.text[0]);
            assert(written[0] != o.open[0]);
        }
    }
    law_legible_template_round_trip(g, text, o, span, ps);
}

// ---------------------------------------------------------------------
// Bodies that end calmly
// ---------------------------------------------------------------------

/// A text is written as it is where no hole opens in what is written of it.
proof fn lemma_written_plain(s: Seq<char>, open: Seq<char>)
    requires
        open.len() > 0,
        !chars::occurs(tile::escaped(s, open), open),
    ensures
        tile::escaped(s, open) == s,
    decreases s.len(),
{
    if s.len() > 0 {
        let own = tile::escaped(s, open);
        let m = open.len() as int;
        if chars::stands_at(s, 0, open) {
            assert(own.subrange(0, m) =~= open);
            assert(chars::stands_at(own, 0, open));
        } else {
            let tail = tile::escaped(s.skip(1), open);
            assert(own == seq![s[0]] + tail);
            assert forall|i: int| !chars::stands_at(tail, i, open) by {
                if chars::stands_at(tail, i, open) {
                    assert(own.subrange(i + 1, i + 1 + m) =~= tail.subrange(i, i + m));
                    assert(chars::stands_at(own, i + 1, open));
                }
            }
            lemma_written_plain(s.skip(1), open);
            assert(own =~= s);
        }
    }
}

/// No hole opens in the mark and the word of a directive.
proof fn lemma_no_hole_in_directive(o: OptionsV, word: Seq<char>)
    requires
        reading_laws::apart(o),
        reading_laws::is_directive(word),
    ensures
        !chars::occurs(o.sigil + word, o.open),
{
    reading_laws::lemma_words();
    let whole = o.sigil + word;
    let n = o.sigil.len() as int;
    let m = o.open.len() as int;
    assert forall|i: int| !chars::stands_at(whole, i, o.open) by {
        if chars::stands_at(whole, i, o.open) {
            let seen = whole.subrange(i, i + m);
            if i + m <= n {
                assert(o.sigil.subrange(i, i + m) =~= seen);
                assert(chars::stands_at(o.sigil, i, o.open));
            } else {
                assert(seen[m - 1] == whole[i + m - 1]);
                assert(chars::is_word(word[i + m - 1 - n]));
                assert(reading_laws::mark(o.open[m - 1]));
            }
        }
    }
}

/// A directive that needs a space behind a text begins with the mark and the
/// word at the end of it.
proof fn lemma_needs_space(own: Seq<char>, o: OptionsV, q: int, s: Seq<char>, word: Seq<char>)
    requires
        reading_laws::apart(o),
        reading_laws::is_directive(word),
        0 <= q <= own.len(),
        own.subrange(q, own.len() as int) == tile::escaped(s, o.open),
        tile::directive_at(own.push(' '), o, q, word),
        !tile::directive_at(own, o, q, word),
    ensures
        chars::ends(s, o.sigil + word),
{
    let full = own.push(' ');
    let n = o.sigil.len() as int;
    let k = n + word.len();
    reading_laws::lemma_words();
    lemma_directive_at(full, o, q, word, k as int);
    assert(full.subrange(q, q + n) =~= own.subrange(q, q + n)) by {
        assert(q + k <= own.len());
    }
    assert(full.subrange(q + n, q + k) =~= own.subrange(q + n, q + k));
    if q + k < own.len() {
        assert(full[q + k] == own[q + k]);
        assert(false);
    }
    let rest = own.subrange(q, own.len() as int);
    assert(rest =~= o.sigil + word) by {
        assert(rest =~= own.subrange(q, q + n) + own.subrange(q + n, q + k));
    }
    lemma_no_hole_in_directive(o, word);
    lemma_written_plain(s, o.open);
    assert(s.subrange(0, s.len() as int) =~= s);
}

/// A text that is calm is calm before a space.
proof fn lemma_calm_before_space(own: Seq<char>, o: OptionsV, q: int, s: Seq<char>)
    requires
        reading_laws::apart(o),
        0 <= q <= own.len(),
        own.subrange(q, own.len() as int) == tile::escaped(s, o.open),
        directive_laws::unmarked(own, o, q, s),
        !chars::ends(s, o.sigil + "for"@),
        !chars::ends(s, o.sigil + "if"@),
    ensures
        directive_laws::unmarked(own.push(' '), o, q, s),
    decreases s.len(),
{
    if s.len() > 0 {
        let full = own.push(' ');
        let m = o.open.len() as int;
        let written = own.subrange(q, own.len() as int);
        if chars::stands_at(s, 0, o.open) {
            let rest = s.skip(m);
            assert(own.subrange(q + 2 * m, own.len() as int) =~= written.skip(2 * m));
            assert(written.skip(2 * m) =~= tile::escaped(rest, o.open));
            lemma_end_of_part(s, o.sigil + "for"@, m);
            lemma_end_of_part(s, o.sigil + "if"@, m);
            lemma_calm_before_space(own, o, q + 2 * m, rest);
        } else {
            let rest = s.skip(1);
            assert(own.subrange(q + 1, own.len() as int) =~= written.skip(1));
            assert(written.skip(1) =~= tile::escaped(rest, o.open));
            lemma_end_of_part(s, o.sigil + "for"@, 1);
            lemma_end_of_part(s, o.sigil + "if"@, 1);
            lemma_calm_before_space(own, o, q + 1, rest);
            if chars::stands_at(full, q, o.open) {
                if q + m <= own.len() {
                    assert(own.subrange(q, q + m) =~= full.subrange(q, q + m));
                } else {
                    assert(full.subrange(q, q + m)[m - 1] == ' ');
                    assert(reading_laws::mark(o.open[m - 1]));
                    assert(chars::is_space(' '));
                }
            }
            if tile::directive_at(full, o, q, "for"@) {
                lemma_needs_space(own, o, q, s, "for"@);
            }
            if tile::directive_at(full, o, q, "if"@) {
                lemma_needs_space(own, o, q, s, "if"@);
            }
        }
    }
}

/// What ends a part at the end of a text ends the text.
proof fn lemma_end_of_part(s: Seq<char>, w: Seq<char>, k: int)
    requires
        0 <= k <= s.len(),
    ensures
        chars::ends(s.skip(k), w) ==> chars::ends(s, w),
{
    let t = s.skip(k);
    if chars::ends(t, w) {
        assert(t.subrange(t.len() - w.len(), t.len() as int) =~= s.subrange(
            s.len() - w.len(),
            s.len() as int,
        ));
    }
}

/// A body ends calmly with a text that is calm alone and does not end with
/// the mark and the word of a directive.
pub proof fn law_body_ends_calmly(s: Seq<char>, o: OptionsV)
    requires
        reading_laws::apart(o),
        reading_laws::calm(s, o, Seq::empty()),
        !chars::ends(s, o.sigil + "for"@),
        !chars::ends(s, o.sigil + "if"@),
    ensures
        reading_laws::calm(s, o, seq![' ']),
{
    let own = tile::escaped(s, o.open);
    assert(own + Seq::<char>::empty() =~= own);
    assert(own.subrange(0, own.len() as int) =~= own);
    lemma_calm_before_space(own, o, 0, s);
    assert(own + seq![' '] =~= own.push(' '));
}

// ---------------------------------------------------------------------
// Separators and names
// ---------------------------------------------------------------------

/// A text without backslashes has nothing escaped.
proof fn lemma_nothing_escaped(s: Seq<char>)
    requires
        !s.contains('\\'),
    ensures
        tile::unescaped(s) == s,
    decreases s.len(),
{
    if s.len() > 0 {
        assert(s[0] != '\\');
        let rest = s.drop_first();
        assert(!rest.contains('\\')) by {
            if rest.contains('\\') {
                let j = rest.index_of('\\');
                assert(s[j + 1] == '\\');
            }
        }
        lemma_nothing_escaped(rest);
        assert(tile::unescaped(s) =~= s);
    }
}

/// The last quote of a text is the one behind which there is none.
proof fn lemma_last_quote_is(s: Seq<char>, i: int)
    requires
        0 <= i < s.len(),
        s[i] == '"',
        forall|j: int| i < j < s.len() ==> #[trigger] s[j] != '"',
    ensures
        tile::last_quote(s) == Some(i),
    decreases s.len(),
{
    if i < s.len() - 1 {
        assert(s[s.len() - 1] != '"');
        let t = s.drop_last();
        assert forall|j: int| i < j < t.len() implies #[trigger] t[j] != '"' by {
            assert(s[j] != '"');
        }
        lemma_last_quote_is(t, i);
    }
}

/// White space around a text does not matter.
proof fn lemma_spaced(text: Seq<char>)
    ensures
        chars::trim(seq![' '] + text) == chars::trim(text),
        chars::trim(seq![' '] + text + seq![' ']) == chars::trim(text),
{
    let a = seq![' '] + text;
    let b = a + seq![' '];
    assert(chars::is_space(' '));
    assert(a.drop_first() =~= text);
    assert(b.drop_last() =~= a);
    assert(b.last() == ' ');
    chars::lemma_trim_drop_last(b);
}

/// A separator is told apart where neither it nor what the projection runs
/// over has a backslash, it has no quote, and without one what the
/// projection runs over does not end with a quote.
pub proof fn law_separator_told(source: ForSourceV, sep: Option<Seq<char>>)
    requires
        chars::trim(source.text) == source.text,
        !source.text.contains('\\'),
        match sep {
            Some(t) => !t.contains('\\') && !t.contains('"'),
            None => source.text.len() > 0 ==> source.text.last() != '"',
        },
    ensures
        ({
            let (text, found) = tile::sep_split(directive_laws::for_header(source, sep));
            found == sep && chars::trim(text) == source.text
        }),
{
    let x = source.text;
    let one = seq![' '];
    let head = directive_laws::for_header(source, sep);
    reveal_strlit(" ");
    reveal_strlit(" sep");
    reveal_strlit(" sep \"");
    reveal_strlit("\"");
    assert(" "@ =~= one);
    assert(" sep"@ =~= seq![' ', 's', 'e', 'p']);
    assert(" sep \""@ =~= " sep"@ + one + seq!['"']);
    assert("\""@ =~= seq!['"']);
    assert(!head.contains('\\')) by {
        if head.contains('\\') {
            let j = head.index_of('\\');
            assert(head[j] == '\\');
            if 1 <= j < 1 + x.len() {
                assert(x[j - 1] == '\\');
            }
            match sep {
                Some(t) => {
                    let from = 1 + x.len() + 6;
                    if from <= j < from + t.len() {
                        assert(t[j - from] == '\\');
                    }
                },
                None => {},
            }
        }
    }
    lemma_nothing_escaped(head);
    lemma_spaced(x);
    assert(chars::is_space(' '));
    match sep {
        Some(t) => {
            let q = one + x + " sep"@ + one + seq!['"'] + t;
            let lead = one + x + " sep"@;
            assert(head =~= q.push('"').push(' '));
            assert(head.drop_last() =~= q.push('"'));
            assert(chars::trim_end(q.push('"')) == q.push('"'));
            assert(chars::trim_end(head) == q.push('"'));
            assert(q.push('"').drop_last() =~= q);
            let i = (lead.len() + 1) as int;
            assert forall|j: int| i < j < q.len() implies #[trigger] q[j] != '"' by {
                assert(q[j] == t[j - i - 1]);
            }
            lemma_last_quote_is(q, i);
            assert(q.take(i) =~= lead.push(' '));
            assert(lead.push(' ').drop_last() =~= lead);
            assert(lead.last() == 'p');
            assert(chars::trim_end(lead) == lead);
            assert(chars::trim_end(lead.push(' ')) == lead);
            assert(lead.subrange(lead.len() - 4, lead.len() as int) =~= " sep"@);
            assert(lead.take(lead.len() - 3) =~= one + x + one);
            chars::lemma_trim_end_then(one + x + one);
            assert(q.skip(i + 1) =~= t);
        },
        None => {
            let lead = one + x;
            assert(head =~= lead.push(' '));
            assert(lead.push(' ').drop_last() =~= lead);
            assert(chars::trim_end(head) == chars::trim_end(lead));
            chars::lemma_trim_end_then(lead);
            if x.len() > 0 {
                let k = reading_laws::lemma_trim_end_take(chars::trim_start(x));
                assert(!chars::is_space(x.last()));
                assert(lead.last() == x.last());
                assert(chars::trim_end(lead) == lead);
            } else {
                assert(lead =~= one);
                assert(lead.drop_last().len() == 0);
                reveal_with_fuel(chars::trim_end, 2);
            }
        },
    }
}

/// A header of a name goes on to its end.
proof fn lemma_name_runs(o: OptionsV, x: Seq<char>, i: int, before: bool)
    requires
        reading_laws::apart(o),
        forall|j: int| 0 <= j < x.len() ==> chars::is_word(#[trigger] x[j]),
        0 <= i <= x.len() + 2,
    ensures
        ({
            let head = seq![' '] + x + seq![' '];
            &&& header_laws::walked(head.skip(i), 0, None) == (0int, None::<char>)
            &&& header_laws::passes(
                header_laws::headed(head),
                o,
                i,
                head.len() - i,
                0,
                None,
                before,
            )
        }),
    decreases x.len() + 2 - i,
{
    let head = seq![' '] + x + seq![' '];
    let s = header_laws::headed(head);
    if i < head.len() {
        let c = head[i];
        assert(s[i] == c);
        assert(c == ' ' || chars::is_word(c)) by {
            if 0 < i < head.len() - 1 {
                assert(c == x[i - 1]);
            }
        }
        assert(chars::is_space(' '));
        assert(reading_laws::mark(o.open[0]));
        if chars::stands_at(s, i, o.open) {
            assert(s.subrange(i, i + o.open.len())[0] == c);
        }
        lemma_name_runs(o, x, i + 1, tile::header_mark(c));
        assert(c != '{');
        assert(header_laws::goes_on(s, o, i, 0, None, before));
        assert(head.skip(i).drop_first() =~= head.skip(i + 1));
        assert(head.skip(i)[0] == c);
        assert(header_laws::stepped(c, 0, None) == (0int, None::<char>));
    } else {
        assert(head.skip(i).len() == 0);
    }
}

/// The grammar of names suits templates whose marks are apart.
pub proof fn law_names_suit(o: OptionsV, span: Span)
    requires
        reading_laws::apart(o),
    ensures
        reading_laws::sober(tile::Names, o),
        prints(tile::Names, o, span),
        keeps_sources(tile::Names),
{
    let g = tile::Names;
    assert(reading_laws::mark(o.open[0]));
    assert forall|x: Seq<char>| (#[trigger] g.expression(x)) is Ok && x.len() > 0 implies x[0]
        != o.open[0] by {
        assert(chars::is_word(x[0]));
    }
    assert forall|x: Seq<char>| (#[trigger] g.expression(x)) is Ok implies ({
        let r = g.expression(x)->Ok_0;
        let head = " "@ + r.shown + " "@;
        &&& header_laws::header_legible(o, span, head)
        &&& g.expression(chars::trim(head)) == Ok::<ReadingV, Seq<char>>(r)
    }) by {
        reveal_strlit(" ");
        assert(" "@ =~= seq![' ']);
        let head = seq![' '] + x + seq![' '];
        lemma_name_runs(o, x, 0, false);
        assert(head.skip(0) =~= head);
        header_laws::lemma_runs(o, span, head);
        lemma_spaced(x);
        assert(chars::trim(x) == x) by {
            assert(chars::is_word(x[0]));
            assert(chars::is_word(x[x.len() - 1]));
        }
    }
}

} // verus!
