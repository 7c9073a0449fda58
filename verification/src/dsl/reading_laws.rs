//! What is read of a template that was read and written again.
use crate::chars;
use crate::dsl::ast::Span;
use crate::dsl::directive_laws;
use crate::dsl::header_laws;
use crate::dsl::template;
use crate::dsl::template::{ForSourceV, HoleV, OptionsV, PieceV, ReadingV};
use crate::dsl::tile;
use crate::dsl::tile::Grammar;
use vstd::prelude::*;

verus! {

/// Whether a character is neither white space nor part of a word, and no
/// quote or backslash.
pub open spec fn mark(c: char) -> bool {
    !chars::is_space(c) && !chars::is_word(c) && c != '"' && c != '\\'
}

/// Whether what opens a hole and what begins a directive can be told apart
/// from words, space, quotes and the end of a body: both are made of marks,
/// neither begins with a closing brace, and no hole opens in what begins a
/// directive.
pub open spec fn apart(o: OptionsV) -> bool {
    &&& o.open.len() > 0
    &&& forall|i: int| 0 <= i < o.open.len() ==> mark(#[trigger] o.open[i])
    &&& o.open[0] != '}'
    &&& o.sigil.len() > 0
    &&& forall|j: int| 0 <= j < o.sigil.len() ==> mark(#[trigger] o.sigil[j])
    &&& o.sigil[0] != '}'
    &&& !chars::occurs(o.sigil, o.open)
}

/// Whether an end of a text is also its beginning.
pub open spec fn bordered(s: Seq<char>) -> bool {
    exists|k: int| 0 < k < s.len() && #[trigger] s.skip(k) == s.take(s.len() - k)
}

/// Whether a text begins with a closing bracket and has no opening one and
/// no quote.
pub open spec fn bracketed(s: Seq<char>) -> bool {
    &&& s.len() > 0
    &&& tile::deeper(s[0], 0) == -1
    &&& forall|i: int|
        0 <= i < s.len() ==> tile::deeper(#[trigger] s[i], 0) <= 0 && tile::opens_quote(s[i])
            is None
}

/// Whether what closes a hole closes it where it ends, whatever the space
/// before it.
pub open spec fn closes(o: OptionsV) -> bool {
    o.close.len() > 0 && (!bordered(o.close) || bracketed(o.close))
}

/// The options by default are apart, and close.
pub proof fn law_default_apart()
    ensures
        apart(template::default_options()),
        closes(template::default_options()),
{
    reveal_strlit("${");
    reveal_strlit("}");
    reveal_strlit("@");
    let o = template::default_options();
    assert forall|k: int| !chars::stands_at(o.sigil, k, o.open) by {
    }
    assert forall|k: int| 0 < k < o.close.len() implies #[trigger] o.close.skip(k) != o.close.take(
        o.close.len() - k,
    ) by {
    }
}

// ---------------------------------------------------------------------
// Text that is gathered
// ---------------------------------------------------------------------

/// Whether `buf` is the text that was gathered from `start` to `pos`: it is
/// written there, and nothing else begins there.
pub open spec fn linked(raw: Seq<char>, o: OptionsV, start: int, pos: int, buf: Seq<char>) -> bool {
    &&& 0 <= start <= pos <= raw.len()
    &&& raw.subrange(start, pos) == tile::escaped(buf, o.open)
    &&& directive_laws::unmarked(raw, o, start, buf)
}

/// Whether neither a hole nor a directive begins in a text that is written
/// before another.
pub open spec fn calm(s: Seq<char>, o: OptionsV, next: Seq<char>) -> bool {
    directive_laws::unmarked(tile::escaped(s, o.open) + next, o, 0, s)
}

/// The depth of braces behind a character of plain text.
pub open spec fn shifted(d: Option<int>, c: char) -> Option<int> {
    match d {
        None => None,
        Some(n) => if c == '{' {
            Some(n + 1)
        } else if c == '}' {
            if n == 0 {
                None
            } else {
                Some(n - 1)
            }
        } else {
            Some(n)
        },
    }
}

/// A text that is shorter than what opens a hole is written as it is.
proof fn lemma_short(s: Seq<char>, open: Seq<char>)
    requires
        s.len() < open.len(),
    ensures
        tile::escaped(s, open) == s,
    decreases s.len(),
{
    if s.len() > 0 {
        lemma_short(s.skip(1), open);
        assert(tile::escaped(s, open) =~= s);
    }
}

/// One more character is gathered.
proof fn lemma_one_more(raw: Seq<char>, o: OptionsV, at: int, buf: Seq<char>)
    requires
        o.open.len() > 0,
        0 <= at,
        directive_laws::unmarked(raw, o, at, buf),
        chars::stands_at(raw, at, tile::escaped(buf, o.open)),
        at + tile::escaped(buf, o.open).len() < raw.len(),
        !chars::stands_at(raw, at + tile::escaped(buf, o.open).len(), o.open),
        !tile::directive_at(raw, o, at + tile::escaped(buf, o.open).len(), "for"@),
        !tile::directive_at(raw, o, at + tile::escaped(buf, o.open).len(), "if"@),
    ensures
        ({
            let c = raw[at + tile::escaped(buf, o.open).len()];
            let more = buf.push(c);
            &&& tile::escaped(more, o.open) == tile::escaped(buf, o.open).push(c)
            &&& directive_laws::unmarked(raw, o, at, more)
            &&& forall|d: int|
                #[trigger] directive_laws::text_depth(more, o.open, d) == shifted(
                    directive_laws::text_depth(buf, o.open, d),
                    c,
                )
        }),
    decreases buf.len(),
{
    let open = o.open;
    let m = open.len() as int;
    let written = tile::escaped(buf, open);
    let c = raw[at + written.len()];
    let more = buf.push(c);
    if buf.len() == 0 {
        assert(written =~= Seq::<char>::empty());
        assert(more.skip(1) =~= Seq::<char>::empty());
        if chars::stands_at(more, 0, open) {
            assert(raw.subrange(at, at + 1) =~= more.subrange(0, 1));
        }
        reveal_with_fuel(tile::escaped, 2);
        reveal_with_fuel(directive_laws::unmarked, 2);
        reveal_with_fuel(directive_laws::text_depth, 2);
        assert(tile::escaped(more, open) =~= written.push(c));
    } else if chars::stands_at(buf, 0, open) {
        let rest = buf.skip(m);
        let tail = tile::escaped(rest, open);
        directive_laws::lemma_parts_stand(raw, at, open + open, tail);
        lemma_one_more(raw, o, at + 2 * m, rest);
        assert(more.subrange(0, m) =~= buf.subrange(0, m));
        assert(more.skip(m) =~= rest.push(c));
        assert(tile::escaped(more, open) =~= written.push(c));
        assert forall|d: int|
            #[trigger] directive_laws::text_depth(more, open, d) == shifted(
                directive_laws::text_depth(buf, open, d),
                c,
            ) by {
            assert(directive_laws::text_depth(rest.push(c), open, d) == shifted(
                directive_laws::text_depth(rest, open, d),
                c,
            ));
        }
    } else {
        let rest = buf.skip(1);
        let tail = tile::escaped(rest, open);
        assert(written == seq![buf[0]] + tail);
        directive_laws::lemma_parts_stand(raw, at, seq![buf[0]], tail);
        lemma_one_more(raw, o, at + 1, rest);
        if chars::stands_at(more, 0, open) {
            if m <= buf.len() {
                assert(more.subrange(0, m) =~= buf.subrange(0, m));
            } else {
                lemma_short(buf, open);
                assert(raw.subrange(at, at + m) =~= more.subrange(0, m)) by {
                    assert(raw.subrange(at, at + buf.len()) == buf);
                    assert forall|i: int| 0 <= i < m implies #[trigger] raw.subrange(at, at + m)[i]
                        == more[i] by {
                        if i < buf.len() {
                            assert(raw.subrange(at, at + buf.len())[i] == buf[i]);
                        }
                    }
                }
            }
            assert(false);
        }
        assert(more.skip(1) =~= rest.push(c));
        assert(more[0] == buf[0]);
        assert(tile::escaped(more, open) =~= written.push(c));
        assert forall|d: int|
            #[trigger] directive_laws::text_depth(more, open, d) == shifted(
                directive_laws::text_depth(buf, open, d),
                c,
            ) by {
            let e = if buf[0] == '{' {
                d + 1
            } else if buf[0] == '}' {
                d - 1
            } else {
                d
            };
            assert(directive_laws::text_depth(rest.push(c), open, e) == shifted(
                directive_laws::text_depth(rest, open, e),
                c,
            ));
        }
    }
}

/// What opens a hole is gathered where it stands twice.
proof fn lemma_open_more(raw: Seq<char>, o: OptionsV, at: int, buf: Seq<char>)
    requires
        o.open.len() > 0,
        0 <= at,
        directive_laws::unmarked(raw, o, at, buf),
        chars::stands_at(raw, at, tile::escaped(buf, o.open) + (o.open + o.open)),
    ensures
        tile::escaped(buf + o.open, o.open) == tile::escaped(buf, o.open) + (o.open + o.open),
        directive_laws::unmarked(raw, o, at, buf + o.open),
        forall|d: int|
            #[trigger] directive_laws::text_depth(buf + o.open, o.open, d)
                == directive_laws::text_depth(buf, o.open, d),
    decreases buf.len(),
{
    let open = o.open;
    let m = open.len() as int;
    let two = open + open;
    let written = tile::escaped(buf, open);
    let more = buf + open;
    if buf.len() == 0 {
        assert(more =~= open);
        assert(more.subrange(0, m) =~= open);
        assert(more.skip(m) =~= Seq::<char>::empty());
        reveal_with_fuel(tile::escaped, 2);
        reveal_with_fuel(directive_laws::unmarked, 2);
        reveal_with_fuel(directive_laws::text_depth, 2);
        assert(tile::escaped(more, open) =~= written + two);
    } else if chars::stands_at(buf, 0, open) {
        let rest = buf.skip(m);
        let tail = tile::escaped(rest, open);
        assert(written + two =~= two + (tail + two));
        directive_laws::lemma_parts_stand(raw, at, two, tail + two);
        lemma_open_more(raw, o, at + 2 * m, rest);
        assert(more.subrange(0, m) =~= buf.subrange(0, m));
        assert(more.skip(m) =~= rest + open);
        assert(tile::escaped(more, open) =~= written + two);
        assert forall|d: int|
            #[trigger] directive_laws::text_depth(more, open, d) == directive_laws::text_depth(
                buf,
                open,
                d,
            ) by {
            assert(directive_laws::text_depth(rest + open, open, d) == directive_laws::text_depth(
                rest,
                open,
                d,
            ));
        }
    } else {
        let rest = buf.skip(1);
        let tail = tile::escaped(rest, open);
        assert(written == seq![buf[0]] + tail);
        assert(written + two =~= seq![buf[0]] + (tail + two));
        directive_laws::lemma_parts_stand(raw, at, seq![buf[0]], tail + two);
        lemma_open_more(raw, o, at + 1, rest);
        if chars::stands_at(more, 0, open) {
            if m <= buf.len() {
                assert(more.subrange(0, m) =~= buf.subrange(0, m));
            } else {
                lemma_short(buf, open);
                let seen = raw.subrange(at, at + (written + two).len());
                assert(raw.subrange(at, at + m) =~= more.subrange(0, m)) by {
                    assert forall|i: int| 0 <= i < m implies #[trigger] raw.subrange(at, at + m)[i]
                        == more[i] by {
                        assert(seen[i] == (written + two)[i]);
                    }
                }
            }
            assert(false);
        }
        assert(more.skip(1) =~= rest + open);
        assert(more[0] == buf[0]);
        assert(tile::escaped(more, open) =~= written + two);
        assert forall|d: int|
            #[trigger] directive_laws::text_depth(more, open, d) == directive_laws::text_depth(
                buf,
                open,
                d,
            ) by {
            let e = if buf[0] == '{' {
                d + 1
            } else if buf[0] == '}' {
                d - 1
            } else {
                d
            };
            assert(directive_laws::text_depth(rest + open, open, e) == directive_laws::text_depth(
                rest,
                open,
                e,
            ));
        }
    }
}

/// One more character is gathered.
proof fn lemma_gathered_one(raw: Seq<char>, o: OptionsV, start: int, pos: int, buf: Seq<char>)
    requires
        apart(o),
        linked(raw, o, start, pos, buf),
        pos < raw.len(),
        !chars::stands_at(raw, pos, o.open),
        !tile::directive_at(raw, o, pos, "for"@),
        !tile::directive_at(raw, o, pos, "if"@),
    ensures
        linked(raw, o, start, pos + 1, buf.push(raw[pos])),
        forall|d: int|
            #[trigger] directive_laws::text_depth(buf.push(raw[pos]), o.open, d) == shifted(
                directive_laws::text_depth(buf, o.open, d),
                raw[pos],
            ),
{
    lemma_one_more(raw, o, start, buf);
    assert(raw.subrange(start, pos + 1) =~= raw.subrange(start, pos).push(raw[pos]));
}

/// What opens a hole is gathered where it stands twice.
proof fn lemma_gathered_open(raw: Seq<char>, o: OptionsV, start: int, pos: int, buf: Seq<char>)
    requires
        apart(o),
        linked(raw, o, start, pos, buf),
        chars::stands_at(raw, pos, o.open + o.open),
    ensures
        linked(raw, o, start, pos + 2 * o.open.len(), buf + o.open),
        forall|d: int|
            #[trigger] directive_laws::text_depth(buf + o.open, o.open, d)
                == directive_laws::text_depth(buf, o.open, d),
{
    let two = o.open + o.open;
    let end = pos + 2 * o.open.len();
    assert(raw.subrange(start, end) =~= raw.subrange(start, pos) + raw.subrange(pos, end));
    assert(raw.subrange(start, end) == tile::escaped(buf, o.open) + two);
    lemma_open_more(raw, o, start, buf);
}

/// What stands in a part stands in the whole.
proof fn lemma_part_stands(full: Seq<char>, a: int, b: int, q: int, w: Seq<char>)
    requires
        0 <= a <= b <= full.len(),
        chars::stands_at(full.subrange(a, b), q, w),
    ensures
        chars::stands_at(full, a + q, w),
{
    let part = full.subrange(a, b);
    assert(full.subrange(a + q, a + q + w.len()) =~= part.subrange(q, q + w.len()));
}

/// A directive that begins in a part begins in the whole.
proof fn lemma_part_directs(
    full: Seq<char>,
    o: OptionsV,
    a: int,
    b: int,
    q: int,
    word: Seq<char>,
)
    requires
        0 <= a <= b <= full.len(),
        tile::directive_at(full.subrange(a, b), o, q, word),
    ensures
        tile::directive_at(full, o, a + q, word),
{
    let n = o.sigil.len() as int;
    lemma_part_stands(full, a, b, q, o.sigil);
    lemma_part_stands(full, a, b, q + n, word);
    assert(full.subrange(a, b)[q + n + word.len()] == full[a + q + n + word.len()]);
}

/// Neither a hole nor a directive begins in a part in which none begins in
/// the whole.
proof fn lemma_unmarked_part(
    full: Seq<char>,
    o: OptionsV,
    a: int,
    b: int,
    q: int,
    s: Seq<char>,
)
    requires
        0 <= a <= b <= full.len(),
        directive_laws::unmarked(full, o, a + q, s),
    ensures
        directive_laws::unmarked(full.subrange(a, b), o, q, s),
    decreases s.len(),
{
    let part = full.subrange(a, b);
    if s.len() > 0 && o.open.len() > 0 {
        if chars::stands_at(s, 0, o.open) {
            let m = o.open.len() as int;
            lemma_unmarked_part(full, o, a, b, q + 2 * m, s.skip(m));
        } else {
            lemma_unmarked_part(full, o, a, b, q + 1, s.skip(1));
            if chars::stands_at(part, q, o.open) {
                lemma_part_stands(full, a, b, q, o.open);
            }
            if tile::directive_at(part, o, q, "for"@) {
                lemma_part_directs(full, o, a, b, q, "for"@);
            }
            if tile::directive_at(part, o, q, "if"@) {
                lemma_part_directs(full, o, a, b, q, "if"@);
            }
        }
    }
}

/// A text that was gathered is calm before what stands behind it.
proof fn lemma_gathered_calm(
    raw: Seq<char>,
    o: OptionsV,
    start: int,
    pos: int,
    buf: Seq<char>,
    next: Seq<char>,
)
    requires
        linked(raw, o, start, pos, buf),
        chars::stands_at(raw, pos, next),
    ensures
        calm(buf, o, next),
{
    let end = pos + next.len();
    lemma_unmarked_part(raw, o, start, end, 0, buf);
    assert(raw.subrange(start, end) =~= raw.subrange(start, pos) + raw.subrange(pos, end));
}

/// A text is calm without the white space at its start.
proof fn lemma_calm_start(s: Seq<char>, o: OptionsV, next: Seq<char>)
    requires
        apart(o),
        calm(s, o, next),
    ensures
        calm(chars::trim_start(s), o, next),
    decreases s.len(),
{
    if s.len() > 0 && chars::is_space(s[0]) {
        let rest = s.drop_first();
        assert(s.skip(1) =~= rest);
        if chars::stands_at(s, 0, o.open) {
            assert(s.subrange(0, o.open.len() as int)[0] == s[0]);
            assert(mark(o.open[0]));
        }
        let own = tile::escaped(s, o.open);
        let tail = tile::escaped(rest, o.open);
        let full = own + next;
        assert(own == seq![s[0]] + tail);
        lemma_unmarked_part(full, o, 1, full.len() as int, 0, rest);
        assert(full.subrange(1, full.len() as int) =~= tail + next);
        lemma_calm_start(rest, o, next);
    }
}

/// White space at the end of a text is written as it is.
proof fn lemma_last_space(full: Seq<char>, o: OptionsV, at: int, s: Seq<char>)
    requires
        apart(o),
        s.len() > 0,
        chars::is_space(s.last()),
        directive_laws::unmarked(full, o, at, s),
    ensures
        tile::escaped(s, o.open) == tile::escaped(s.drop_last(), o.open).push(s.last()),
        directive_laws::unmarked(full, o, at, s.drop_last()),
    decreases s.len(),
{
    let open = o.open;
    let m = open.len() as int;
    let t = s.drop_last();
    if chars::stands_at(s, 0, open) {
        if m == s.len() {
            assert(s.subrange(0, m)[m - 1] == s.last());
            assert(mark(open[m - 1]));
        }
        assert(t.subrange(0, m) =~= s.subrange(0, m));
        assert(s.skip(m).drop_last() =~= t.skip(m));
        assert(s.skip(m).last() == s.last());
        lemma_last_space(full, o, at + 2 * m, s.skip(m));
        assert(tile::escaped(s, open) =~= tile::escaped(t, open).push(s.last()));
    } else if s.len() == 1 {
        assert(s.skip(1) =~= Seq::<char>::empty());
        reveal_with_fuel(tile::escaped, 2);
        assert(tile::escaped(s, open) =~= tile::escaped(t, open).push(s.last()));
    } else {
        if chars::stands_at(t, 0, open) {
            assert(t.subrange(0, m) =~= s.subrange(0, m));
        }
        assert(s.skip(1).drop_last() =~= t.skip(1));
        assert(s.skip(1).last() == s.last());
        assert(t[0] == s[0]);
        lemma_last_space(full, o, at + 1, s.skip(1));
        assert(tile::escaped(s, open) =~= tile::escaped(t, open).push(s.last()));
    }
}

/// A text is calm without the white space at its end, and what is written of
/// it is a beginning of what was.
proof fn lemma_calm_end(s: Seq<char>, o: OptionsV) -> (k: int)
    requires
        apart(o),
        calm(s, o, Seq::empty()),
    ensures
        calm(chars::trim_end(s), o, Seq::empty()),
        0 <= k <= tile::escaped(s, o.open).len(),
        tile::escaped(chars::trim_end(s), o.open) == tile::escaped(s, o.open).take(k),
    decreases s.len(),
{
    let none = Seq::<char>::empty();
    let own = tile::escaped(s, o.open);
    if s.len() > 0 && chars::is_space(s.last()) {
        let t = s.drop_last();
        let full = own + none;
        lemma_last_space(full, o, 0, s);
        let less = tile::escaped(t, o.open);
        lemma_unmarked_part(full, o, 0, less.len() as int, 0, t);
        assert(full.subrange(0, less.len() as int) =~= less + none);
        let k = lemma_calm_end(t, o);
        assert(less.take(k) =~= own.take(k));
        k
    } else {
        assert(own.take(own.len() as int) =~= own);
        own.len() as int
    }
}

/// Whether a text is one of the words of directives.
pub open spec fn is_directive(word: Seq<char>) -> bool {
    word == "for"@ || word == "if"@
}

/// The words of directives are words.
pub proof fn lemma_words()
    ensures
        "for"@ =~= seq!['f', 'o', 'r'],
        "if"@ =~= seq!['i', 'f'],
        "else"@ =~= seq!['e', 'l', 's', 'e'],
        forall|word: Seq<char>, i: int|
            (is_directive(word) || word == "else"@) && 0 <= i < word.len() ==> chars::is_word(
                #[trigger] word[i],
            ),
{
    reveal_strlit("for");
    reveal_strlit("if");
    reveal_strlit("else");
}

/// The place after white space: all before it is white space, and what
/// stands there is none.
pub proof fn lemma_after_space(s: Seq<char>, i: int)
    requires
        0 <= i <= s.len(),
    ensures
        i <= tile::after_space(s, i) <= s.len(),
        forall|j: int| i <= j < tile::after_space(s, i) ==> chars::is_space(#[trigger] s[j]),
        tile::after_space(s, i) < s.len() ==> !chars::is_space(s[tile::after_space(s, i)]),
    decreases s.len() - i,
{
    if i < s.len() && chars::is_space(s[i]) {
        lemma_after_space(s, i + 1);
    }
}

/// There is one such place.
pub proof fn lemma_after_space_is(s: Seq<char>, i: int, k: int)
    requires
        0 <= i <= k < s.len(),
        forall|j: int| i <= j < k ==> chars::is_space(#[trigger] s[j]),
        !chars::is_space(s[k]),
    ensures
        tile::after_space(s, i) == k,
    decreases k - i,
{
    if i < k {
        assert(chars::is_space(s[i]));
        lemma_after_space_is(s, i + 1, k);
    }
}

/// Whether the other branch does not begin with a text.
pub open spec fn no_else(s: Seq<char>, o: OptionsV, at: int) -> bool {
    !chars::stands_at(s, tile::after_space(s, at), o.sigil + "else"@)
}

/// Where another branch begins in a text, it begins in one that agrees up to
/// there.
pub proof fn lemma_else_moved(s: Seq<char>, t: Seq<char>, o: OptionsV, at: int, to: int)
    requires
        apart(o),
        0 <= at <= s.len(),
        0 <= to,
        !no_else(s, o, at),
        to + (tile::after_space(s, at) - at) + o.sigil.len() + 4 <= t.len(),
        t.subrange(to, to + (tile::after_space(s, at) - at) + o.sigil.len() + 4) == s.subrange(
            at,
            tile::after_space(s, at) + o.sigil.len() + 4,
        ),
    ensures
        !no_else(t, o, to),
{
    lemma_words();
    lemma_after_space(s, at);
    let other = o.sigil + "else"@;
    let a = tile::after_space(s, at) - at;
    let k = a + other.len();
    let x = t.subrange(to, to + k);
    let y = s.subrange(at, at + k);
    assert(s.subrange(at + a, at + k)[0] == s[at + a]);
    assert(mark(o.sigil[0]));
    assert(x[a] == t[to + a] && y[a] == s[at + a]);
    assert forall|j: int| to <= j < to + a implies chars::is_space(#[trigger] t[j]) by {
        assert(x[j - to] == t[j]);
        assert(y[j - to] == s[at + (j - to)]);
    }
    lemma_after_space_is(t, to, to + a);
    assert(t.subrange(to + a, to + k) =~= x.subrange(a, k));
    assert(s.subrange(at + a, at + k) =~= y.subrange(a, k));
}

/// Another branch does not begin with a text that was gathered where none
/// begins.
proof fn lemma_gathered_else(raw: Seq<char>, o: OptionsV, start: int, pos: int, buf: Seq<char>)
    requires
        apart(o),
        linked(raw, o, start, pos, buf),
        no_else(raw, o, start),
    ensures
        no_else(tile::escaped(buf, o.open), o, 0),
{
    let own = tile::escaped(buf, o.open);
    if !no_else(own, o, 0) {
        lemma_words();
        lemma_after_space(own, 0);
        let k = tile::after_space(own, 0) + o.sigil.len() + 4;
        assert(raw.subrange(start, start + k) =~= own.subrange(0, k)) by {
            assert(raw.subrange(start, pos).subrange(0, k) =~= raw.subrange(start, start + k));
        }
        lemma_else_moved(own, raw, o, 0, start);
    }
}

// ---------------------------------------------------------------------
// Holes
// ---------------------------------------------------------------------

/// Where a hole is closed.
pub open spec fn shut(
    s: Seq<char>,
    close: Seq<char>,
    pos: int,
    depth: int,
    quote: Option<char>,
) -> Option<int>
    decreases s.len() - pos,
{
    if pos < 0 || pos >= s.len() {
        None
    } else {
        let c = s[pos];
        match quote {
            Some(q) => if c == '\\' && pos + 1 < s.len() {
                shut(s, close, pos + 2, depth, quote)
            } else if c == q {
                shut(s, close, pos + 1, depth, None)
            } else {
                shut(s, close, pos + 1, depth, quote)
            },
            None => if depth == 0 && chars::stands_at(s, pos, close) {
                Some(pos)
            } else {
                shut(
                    s,
                    close,
                    pos + 1,
                    if tile::opens_quote(c) is Some {
                        depth
                    } else {
                        tile::deeper(c, depth)
                    },
                    tile::opens_quote(c),
                )
            },
        }
    }
}

/// A hole is closed at or behind the place from which that is looked for,
/// outside of quotes and brackets, and what closes it stands there.
proof fn lemma_shut(s: Seq<char>, close: Seq<char>, pos: int, depth: int, quote: Option<char>)
    requires
        0 <= pos,
    ensures
        shut(s, close, pos, depth, quote) matches Some(e) ==> {
            &&& pos <= e
            &&& (quote is Some || depth != 0) ==> pos < e
            &&& chars::stands_at(s, e, close)
        },
    decreases s.len() - pos,
{
    if pos < s.len() {
        let c = s[pos];
        match quote {
            Some(q) => {
                if pos + 1 < s.len() {
                    lemma_shut(s, close, pos + 2, depth, quote);
                }
                lemma_shut(s, close, pos + 1, depth, None);
                lemma_shut(s, close, pos + 1, depth, quote);
            },
            None => {
                let d = if tile::opens_quote(c) is Some {
                    depth
                } else {
                    tile::deeper(c, depth)
                };
                lemma_shut(s, close, pos + 1, d, tile::opens_quote(c));
            },
        }
    }
}

/// What stands in a hole is the text up to where it is closed.
proof fn lemma_closing_shut(
    s: Seq<char>,
    close: Seq<char>,
    pos: int,
    depth: int,
    quote: Option<char>,
    buf: Seq<char>,
)
    requires
        0 <= pos,
    ensures
        match shut(s, close, pos, depth, quote) {
            Some(e) => tile::closing(s, close, pos, depth, quote, buf) == (
                e + close.len(),
                Some(buf + s.subrange(pos, e)),
            ),
            None => tile::closing(s, close, pos, depth, quote, buf).1 is None,
        },
    decreases s.len() - pos,
{
    lemma_shut(s, close, pos, depth, quote);
    if pos < s.len() {
        let c = s[pos];
        let end = shut(s, close, pos, depth, quote);
        match quote {
            Some(q) => {
                if c == '\\' && pos + 1 < s.len() {
                    let more = buf.push(c).push(s[pos + 1]);
                    lemma_closing_shut(s, close, pos + 2, depth, quote, more);
                    lemma_shut(s, close, pos + 2, depth, quote);
                    if end is Some {
                        assert(more + s.subrange(pos + 2, end->0) =~= buf + s.subrange(
                            pos,
                            end->0,
                        ));
                    }
                } else {
                    let next = if c == q {
                        None
                    } else {
                        quote
                    };
                    lemma_closing_shut(s, close, pos + 1, depth, next, buf.push(c));
                    lemma_shut(s, close, pos + 1, depth, next);
                    if end is Some {
                        assert(buf.push(c) + s.subrange(pos + 1, end->0) =~= buf + s.subrange(
                            pos,
                            end->0,
                        ));
                    }
                }
            },
            None => {
                if depth == 0 && chars::stands_at(s, pos, close) {
                    assert(buf + s.subrange(pos, pos) =~= buf);
                } else {
                    let d = if tile::opens_quote(c) is Some {
                        depth
                    } else {
                        tile::deeper(c, depth)
                    };
                    lemma_closing_shut(s, close, pos + 1, d, tile::opens_quote(c), buf.push(c));
                    lemma_shut(s, close, pos + 1, d, tile::opens_quote(c));
                    if end is Some {
                        assert(buf.push(c) + s.subrange(pos + 1, end->0) =~= buf + s.subrange(
                            pos,
                            end->0,
                        ));
                    }
                }
            },
        }
    }
}

/// White space at the start of a hole does not matter.
proof fn lemma_shut_lead(s: Seq<char>, close: Seq<char>, i: int, j: int, e: int)
    requires
        0 <= i <= j <= e,
        shut(s, close, i, 0, None) == Some(e),
        forall|k: int| i <= k < j ==> chars::is_space(#[trigger] s[k]),
    ensures
        shut(s, close, j, 0, None) == Some(e),
    decreases j - i,
{
    if i < j {
        assert(chars::is_space(s[i]));
        lemma_shut_lead(s, close, i + 1, j, e);
    }
}

/// A hole is closed at the same place in the part of a text that ends with
/// what closes it.
proof fn lemma_shut_part(
    full: Seq<char>,
    close: Seq<char>,
    at: int,
    e: int,
    i: int,
    depth: int,
    quote: Option<char>,
)
    requires
        close.len() > 0,
        0 <= at <= i <= e,
        shut(full, close, i, depth, quote) == Some(e),
    ensures
        shut(full.subrange(at, e + close.len()), close, i - at, depth, quote) == Some(e - at),
    decreases e - i,
{
    lemma_shut(full, close, i, depth, quote);
    let part = full.subrange(at, e + close.len());
    let c = full[i];
    assert(part[i - at] == c);
    match quote {
        Some(q) => {
            if c == '\\' && i + 1 < full.len() {
                lemma_shut(full, close, i + 2, depth, quote);
                assert(i + 2 <= e);
                assert(part[i + 1 - at] == full[i + 1]);
                lemma_shut_part(full, close, at, e, i + 2, depth, quote);
            } else {
                let next = if c == q {
                    None
                } else {
                    quote
                };
                lemma_shut(full, close, i + 1, depth, next);
                lemma_shut_part(full, close, at, e, i + 1, depth, next);
            }
        },
        None => {
            if depth == 0 && chars::stands_at(full, i, close) {
                assert(part.subrange(i - at, i - at + close.len()) =~= full.subrange(
                    i,
                    i + close.len(),
                ));
            } else {
                let d = if tile::opens_quote(c) is Some {
                    depth
                } else {
                    tile::deeper(c, depth)
                };
                lemma_shut(full, close, i + 1, d, tile::opens_quote(c));
                if depth == 0 && chars::stands_at(part, i - at, close) {
                    assert(part.subrange(i - at, i - at + close.len()) =~= full.subrange(
                        i,
                        i + close.len(),
                    ));
                }
                lemma_shut_part(full, close, at, e, i + 1, d, tile::opens_quote(c));
            }
        },
    }
}

/// A hole is not closed below the depth at which it opens, as long as
/// nothing opens in between.
proof fn lemma_never_shut(s: Seq<char>, close: Seq<char>, i: int, e: int, depth: int)
    requires
        0 <= i <= e,
        depth < 0,
        forall|j: int|
            i <= j < e ==> tile::deeper(#[trigger] s[j], 0) <= 0 && tile::opens_quote(s[j]) is None,
    ensures
        shut(s, close, i, depth, None) != Some(e),
    decreases e - i,
{
    lemma_shut(s, close, i, depth, None);
    if i < e && i < s.len() {
        assert(tile::deeper(s[i], 0) <= 0);
        lemma_never_shut(s, close, i + 1, e, tile::deeper(s[i], depth));
    }
}

/// White space at the end of a hole does not matter.
proof fn lemma_shut_tail(
    w: Seq<char>,
    close: Seq<char>,
    i: int,
    depth: int,
    quote: Option<char>,
)
    requires
        close.len() > 0,
        !bordered(close) || bracketed(close),
        w.len() > 0,
        chars::is_space(w.last()),
        0 <= i < w.len(),
        shut(w + close, close, i, depth, quote) == Some(w.len() as int),
        quote matches Some(q) ==> q == '"' || q == '\'',
    ensures
        shut(w.drop_last() + close, close, i, depth, quote) == Some(w.len() - 1),
    decreases w.len() - i,
{
    let long = w + close;
    let v = w.drop_last();
    let s = v + close;
    let n = v.len() as int;
    let c = long[i];
    assert(c == w[i]);
    if i == n {
        assert(c == w.last());
        assert(c != '\\' && c != '"' && c != '\'');
        assert(tile::opens_quote(c) is None);
        assert(tile::deeper(c, depth) == depth);
        lemma_shut(long, close, n + 1, depth, quote);
        assert(quote is None && depth == 0);
        assert(s.subrange(n, n + close.len()) =~= close);
    } else {
        assert(s[i] == c);
        match quote {
            Some(q) => {
                if c == '\\' {
                    lemma_shut(long, close, i + 2, depth, quote);
                    assert(i + 2 < w.len());
                    assert(s[i + 1] == long[i + 1]);
                    lemma_shut_tail(w, close, i + 2, depth, quote);
                } else {
                    let next = if c == q {
                        None
                    } else {
                        quote
                    };
                    lemma_shut_tail(w, close, i + 1, depth, next);
                }
            },
            None => {
                if depth == 0 && chars::stands_at(s, i, close) {
                    if i + close.len() <= n {
                        assert(s.subrange(i, i + close.len()) =~= long.subrange(
                            i,
                            i + close.len(),
                        ));
                    } else {
                        let k = n - i;
                        let seen = s.subrange(i, i + close.len());
                        assert(close.skip(k) =~= close.take(close.len() - k)) by {
                            assert forall|j: int| 0 <= j < close.len() - k implies close[k + j]
                                == #[trigger] close[j] by {
                                assert(seen[k + j] == s[n + j]);
                            }
                        }
                        assert(bordered(close));
                        assert(c == close[0]) by {
                            assert(seen[0] == s[i]);
                        }
                        assert forall|j: int| i + 1 <= j < w.len() implies tile::deeper(
                            #[trigger] long[j],
                            0,
                        ) <= 0 && tile::opens_quote(long[j]) is None by {
                            if j < n {
                                assert(seen[j - i] == s[j]);
                                assert(long[j] == close[j - i]);
                            } else {
                                assert(long[j] == w.last());
                            }
                        }
                        assert(tile::opens_quote(close[0]) is None);
                        lemma_never_shut(long, close, i + 1, w.len() as int, -1);
                    }
                    assert(false);
                }
                let d = if tile::opens_quote(c) is Some {
                    depth
                } else {
                    tile::deeper(c, depth)
                };
                lemma_shut_tail(w, close, i + 1, d, tile::opens_quote(c));
            },
        }
    }
}

/// White space at the end of a hole does not matter.
proof fn lemma_shut_trimmed(w: Seq<char>, close: Seq<char>)
    requires
        close.len() > 0,
        !bordered(close) || bracketed(close),
        shut(w + close, close, 0, 0, None) == Some(w.len() as int),
    ensures
        shut(chars::trim_end(w) + close, close, 0, 0, None) == Some(
            chars::trim_end(w).len() as int,
        ),
    decreases w.len(),
{
    if w.len() > 0 && chars::is_space(w.last()) {
        lemma_shut_tail(w, close, 0, 0, None);
        lemma_shut_trimmed(w.drop_last(), close);
    }
}

/// What is left at the start of a text is its end, behind white space.
pub proof fn lemma_trim_start_tail(s: Seq<char>) -> (k: int)
    ensures
        0 <= k <= s.len(),
        chars::trim_start(s) == s.skip(k),
        forall|j: int| 0 <= j < k ==> chars::is_space(#[trigger] s[j]),
    decreases s.len(),
{
    if s.len() > 0 && chars::is_space(s[0]) {
        let rest = s.drop_first();
        let k = lemma_trim_start_tail(rest);
        assert(rest.skip(k) =~= s.skip(k + 1));
        assert forall|j: int| 0 <= j < k + 1 implies chars::is_space(#[trigger] s[j]) by {
            if j > 0 {
                assert(rest[j - 1] == s[j]);
            }
        }
        k + 1
    } else {
        assert(s.skip(0) =~= s);
        0
    }
}

/// A hole that is read is closed where it ends once it is written.
proof fn lemma_read_hole_shut(raw: Seq<char>, o: OptionsV, from: int, p: int, t: Seq<char>)
    requires
        closes(o),
        0 <= from,
        tile::closing(raw, o.close, from, 0, None, Seq::empty()) == (p, Some(t)),
    ensures
        ({
            let text = chars::trim(t);
            tile::closing(text + o.close, o.close, 0, 0, None, Seq::empty()) == (
                (text.len() + o.close.len()) as int,
                Some(text),
            )
        }),
{
    let close = o.close;
    lemma_closing_shut(raw, close, from, 0, None, Seq::empty());
    lemma_shut(raw, close, from, 0, None);
    let e = shut(raw, close, from, 0, None)->0;
    assert(t =~= raw.subrange(from, e));
    let k = lemma_trim_start_tail(t);
    assert forall|j: int| from <= j < from + k implies chars::is_space(#[trigger] raw[j]) by {
        assert(t[j - from] == raw[j]);
    }
    lemma_shut_lead(raw, close, from, from + k, e);
    let w = chars::trim_start(t);
    assert(w =~= raw.subrange(from + k, e));
    lemma_shut_part(raw, close, from + k, e, from + k, 0, None);
    assert(raw.subrange(from + k, e + close.len()) =~= w + close) by {
        assert(raw.subrange(e, e + close.len()) == close);
    }
    lemma_shut_trimmed(w, close);
    let text = chars::trim_end(w);
    lemma_closing_shut(text + close, close, 0, 0, None, Seq::empty());
    assert((text + close).subrange(0, text.len() as int) =~= text);
    assert(Seq::<char>::empty() + text =~= text);
}

// ---------------------------------------------------------------------
// What is read
// ---------------------------------------------------------------------

/// Whether no expression begins with what opens a hole.
pub open spec fn sober<G: Grammar>(g: G, o: OptionsV) -> bool {
    forall|x: Seq<char>|
        (#[trigger] g.expression(x)) is Ok && x.len() > 0 ==> x[0] != o.open[0]
}

/// Whether what a projection runs over, and its separator, are read of a
/// header.
pub open spec fn head_read<G: Grammar>(
    g: G,
    o: OptionsV,
    source: ForSourceV,
    sep: Option<Seq<char>>,
    h: Seq<char>,
) -> bool {
    &&& h.len() > 0
    &&& chars::is_space(h[0])
    &&& header_laws::runs(o, h)
    &&& tile::sep_split(h).1 == sep
    &&& g.source(chars::trim(tile::sep_split(h).0)) == Ok::<ForSourceV, Seq<char>>(source)
}

/// Whether a condition is read of a text.
pub open spec fn condition_read<G: Grammar>(g: G, cond: ReadingV, x: Seq<char>) -> bool {
    g.expression(x) == Ok::<ReadingV, Seq<char>>(cond)
}

/// Whether a hole is closed where it ends.
pub open spec fn hole_shut(o: OptionsV, h: HoleV) -> bool {
    tile::closing(h.text + o.close, o.close, 0, 0, None, Seq::empty()) == (
        (h.text.len() + o.close.len()) as int,
        Some(h.text),
    )
}

/// Whether a hole is one that reading gives: its text stands for it, and
/// where the options close, and expressions do not begin as holes do, it is
/// closed where it ends and does not begin as one.
pub open spec fn hole_read<G: Grammar>(g: G, o: OptionsV, span: Span, h: HoleV) -> bool {
    &&& tile::hole_of(g, h.text, span) == Ok::<HoleV, Seq<char>>(h)
    &&& closes(o) ==> hole_shut(o, h)
    &&& sober(g, o) ==> h.text[0] != o.open[0]
}

/// Whether a piece is one that reading gives: its texts begin no directive,
/// its holes stand for themselves, and its bodies are closed.
pub open spec fn read_piece<G: Grammar>(g: G, o: OptionsV, span: Span, p: PieceV) -> bool
    decreases p, 0nat,
{
    match p {
        PieceV::Static(s) => s.len() > 0 && calm(s, o, Seq::empty()),
        PieceV::Hole(h) => hole_read(g, o, span, h),
        PieceV::Projection(source, sep, body, sp) => {
            &&& sp == span
            &&& exists|h: Seq<char>| #[trigger] head_read(g, o, source, sep, h)
            &&& read_body(g, o, span, body)
        },
        PieceV::Branch(cond, yes, otherwise, sp) => {
            &&& sp == span
            &&& exists|x: Seq<char>| #[trigger] condition_read(g, cond, x)
            &&& read_body(g, o, span, yes)
            &&& match otherwise {
                Some(no) => read_body(g, o, span, no),
                None => true,
            }
        },
    }
}

/// Whether a piece is a branch without another.
pub open spec fn lacks_else(p: PieceV) -> bool {
    p matches PieceV::Branch(_, _, otherwise, _) && otherwise is None
}

/// What a piece that is no text begins with.
pub open spec fn opening(o: OptionsV, p: PieceV) -> Seq<char> {
    if p is Hole {
        o.open
    } else {
        o.sigil
    }
}

/// Whether two pieces can follow each other: no two texts touch, behind a
/// branch without another none begins, and a text is calm before what
/// follows it.
pub open spec fn may_follow(o: OptionsV, a: PieceV, b: PieceV) -> bool {
    &&& b matches PieceV::Static(s) ==> {
        &&& !(a is Static)
        &&& lacks_else(a) ==> no_else(tile::escaped(s, o.open), o, 0)
    }
    &&& a matches PieceV::Static(s) ==> calm(s, o, opening(o, b))
}

/// Whether the pieces of a run are such that reading gives.
pub open spec fn read_run<G: Grammar>(g: G, o: OptionsV, span: Span, ps: Seq<PieceV>) -> bool
    decreases ps, 1nat,
{
    &&& forall|i: int| 0 <= i < ps.len() ==> read_piece(g, o, span, #[trigger] ps[i])
    &&& forall|i: int| 0 <= i < ps.len() - 1 ==> may_follow(o, #[trigger] ps[i], ps[i + 1])
}

/// Whether a body is one that reading gives: its braces are balanced, and no
/// white space stands at its ends.
pub open spec fn read_body<G: Grammar>(g: G, o: OptionsV, span: Span, body: Seq<PieceV>) -> bool
    decreases body, 2nat,
{
    &&& read_run(g, o, span, body)
    &&& directive_laws::run_depth(body, o.open) == Some(0int)
    &&& body.len() > 0 && body[0] is Static ==> !chars::is_space(body[0]->Static_0[0])
    &&& body.len() > 0 && body.last() is Static ==> !chars::is_space(
        body.last()->Static_0.last(),
    )
}

/// What a hole is read to is such that reading gives.
proof fn lemma_read_hole<G: Grammar>(
    g: G,
    raw: Seq<char>,
    o: OptionsV,
    span: Span,
    pos: int,
    p: int,
    h: HoleV,
)
    requires
        0 <= pos,
        tile::hole_at(g, raw, o, span, pos) == (p, Ok::<HoleV, Seq<char>>(h)),
    ensures
        hole_read(g, o, span, h),
{
    let from = pos + o.open.len();
    let (q, inner) = tile::closing(raw, o.close, from, 0, None, Seq::empty());
    let t = inner->0;
    assert(inner is Some);
    assert(tile::hole_of(g, t, span) == Ok::<HoleV, Seq<char>>(h));
    if closes(o) {
        lemma_read_hole_shut(raw, o, from, q, t);
    }
    chars::lemma_trim_twice(t);
    let text = chars::trim(t);
    assert(h.text == text);
    assert(tile::hole_of(g, text, span) == tile::hole_of(g, t, span));
    let raw_text = text.last() == '!';
    let b0 = if raw_text {
        chars::trim(text.drop_last())
    } else {
        text
    };
    let b1 = tile::format_split(b0).0;
    let b2 = tile::type_split(b1).0;
    assert(b2.len() > 0);
    assert(g.expression(b2) is Ok);
    chars::lemma_trim_start_first(t);
    chars::lemma_trim_end_first(chars::trim_start(t));
    assert(!chars::is_space(text[0])) by {
        lemma_trim_end_take(chars::trim_start(t));
    }
    lemma_first_kept(text, b0, b1, b2);
}

/// What is left at the end of a text is its beginning.
pub proof fn lemma_trim_end_take(s: Seq<char>) -> (k: int)
    ensures
        0 <= k <= s.len(),
        chars::trim_end(s) == s.take(k),
        k > 0 ==> !chars::is_space(s[k - 1]),
        forall|j: int| k <= j < s.len() ==> chars::is_space(#[trigger] s[j]),
    decreases s.len(),
{
    if s.len() > 0 && chars::is_space(s.last()) {
        let k = lemma_trim_end_take(s.drop_last());
        assert(s.drop_last().take(k) =~= s.take(k));
        assert forall|j: int| k <= j < s.len() implies chars::is_space(#[trigger] s[j]) by {
            if j < s.len() - 1 {
                assert(s.drop_last()[j] == s[j]);
            }
        }
        k
    } else {
        assert(s.take(s.len() as int) =~= s);
        s.len() as int
    }
}

/// The first character of a part at the start of a text stays.
proof fn lemma_part_first(s: Seq<char>, k: int)
    requires
        s.len() > 0,
        !chars::is_space(s[0]),
        0 <= k <= s.len(),
    ensures
        k > 0 ==> chars::trim(s.take(k)).len() > 0 && chars::trim(s.take(k))[0] == s[0],
        k == 0 ==> chars::trim(s.take(k)).len() == 0,
{
    let t = s.take(k);
    if k > 0 {
        assert(t[0] == s[0]);
        assert(chars::trim_start(t) == t);
        chars::lemma_trim_end_first(t);
    }
}

/// The expression of a hole begins as its text does.
proof fn lemma_first_kept(text: Seq<char>, b0: Seq<char>, b1: Seq<char>, b2: Seq<char>)
    requires
        text.len() > 0,
        !chars::is_space(text[0]),
        b0 == (if text.last() == '!' {
            chars::trim(text.drop_last())
        } else {
            text
        }),
        b1 == tile::format_split(b0).0,
        b2 == tile::type_split(b1).0,
        b2.len() > 0,
    ensures
        b2[0] == text[0],
{
    lemma_part_first(text, text.len() - 1);
    assert(text.drop_last() =~= text.take(text.len() - 1));
    if b0.len() > 0 {
        match tile::top_level(b0, '|') {
            Some(i) => {
                if 0 <= i <= b0.len() {
                    lemma_part_first(b0, i);
                }
                lemma_top_level(b0, '|');
            },
            None => {},
        }
        if b1.len() > 0 {
            match tile::top_level(b1, ':') {
                Some(i) => {
                    if 0 <= i <= b1.len() {
                        lemma_part_first(b1, i);
                    }
                    lemma_top_level(b1, ':');
                },
                None => {},
            }
        } else {
            lemma_top_level(b1, ':');
        }
    } else {
        lemma_top_level(b0, '|');
        lemma_top_level(b1, ':');
    }
}

/// The place of a character is in its text.
proof fn lemma_top_level(s: Seq<char>, needle: char)
    ensures
        tile::top_level(s, needle) matches Some(i) ==> 0 <= i < s.len(),
{
    tile::lemma_last_top(s, needle, 0, 0, None, None);
}

// ---------------------------------------------------------------------
// Bodies that are read
// ---------------------------------------------------------------------

/// What is left of a run where only its ends may be dropped.
#[verifier::rlimit(40)]
#[verifier::spinoff_prover]
proof fn lemma_ends_filtered(b: Seq<PieceV>) -> (r: (int, int))
    requires
        b.len() > 0,
        forall|i: int| 0 < i < b.len() - 1 ==> directive_laws::kept(#[trigger] b[i]),
    ensures
        0 <= r.0 <= r.1 <= b.len(),
        r.0 <= 1,
        b.len() - 1 <= r.1,
        b.filter(|p: PieceV| !(p is Static && p->Static_0.len() == 0)) == b.subrange(r.0, r.1),
        r.0 == 1 ==> !directive_laws::kept(b[0]),
        r.1 == b.len() - 1 ==> !directive_laws::kept(b.last()),
        forall|i: int| r.0 <= i < r.1 ==> directive_laws::kept(#[trigger] b[i]),
{
    let keep = |p: PieceV| !(p is Static && p->Static_0.len() == 0);
    let n = b.len() as int;
    if n == 1 {
        assert(b =~= seq![b[0]]);
        if directive_laws::kept(b[0]) {
            directive_laws::lemma_all_kept(b);
            assert(b.subrange(0, 1) =~= b);
            (0, 1)
        } else {
            directive_laws::lemma_one_dropped(b[0]);
            assert(b.subrange(1, 1) =~= Seq::<PieceV>::empty());
            (1, 1)
        }
    } else {
        let first = seq![b[0]];
        let mid = b.subrange(1, n - 1);
        let last = seq![b[n - 1]];
        assert(b =~= first + mid + last);
        Seq::filter_distributes_over_add(first + mid, last, keep);
        Seq::filter_distributes_over_add(first, mid, keep);
        assert forall|i: int| 0 <= i < mid.len() implies directive_laws::kept(
            #[trigger] mid[i],
        ) by {
            assert(directive_laws::kept(b[i + 1]));
        }
        directive_laws::lemma_all_kept(mid);
        let lo = if directive_laws::kept(b[0]) {
            directive_laws::lemma_all_kept(first);
            0int
        } else {
            directive_laws::lemma_one_dropped(b[0]);
            1int
        };
        let hi = if directive_laws::kept(b[n - 1]) {
            directive_laws::lemma_all_kept(last);
            n
        } else {
            directive_laws::lemma_one_dropped(b[n - 1]);
            n - 1
        };
        let f = first.filter(keep);
        let l = last.filter(keep);
        assert(b.filter(keep) == f + mid + l);
        assert(f =~= b.subrange(lo, 1));
        assert(l =~= b.subrange(n - 1, hi));
        assert(f + mid + l =~= b.subrange(lo, hi));
        (lo, hi)
    }
}

/// The depth behind a piece.
pub open spec fn depth_behind(p: PieceV, open: Seq<char>, d: int) -> Option<int> {
    match p {
        PieceV::Static(s) => directive_laws::text_depth(s, open, d),
        _ => Some(d),
    }
}

/// Runs whose pieces lead to the same depths lead to the same depth.
proof fn lemma_same_depth(x: Seq<PieceV>, b: Seq<PieceV>, open: Seq<char>)
    requires
        x.len() == b.len(),
        forall|i: int, d: int|
            0 <= i < x.len() ==> #[trigger] depth_behind(b[i], open, d) == depth_behind(
                x[i],
                open,
                d,
            ),
    ensures
        directive_laws::run_depth(b, open) == directive_laws::run_depth(x, open),
    decreases x.len(),
{
    if x.len() > 0 {
        let x0 = x.drop_last();
        let b0 = b.drop_last();
        assert forall|i: int, d: int| 0 <= i < x0.len() implies #[trigger] depth_behind(
            b0[i],
            open,
            d,
        ) == depth_behind(x0[i], open, d) by {
            assert(depth_behind(b[i], open, d) == depth_behind(x[i], open, d));
        }
        lemma_same_depth(x0, b0, open);
        match directive_laws::run_depth(x0, open) {
            Some(d) => {
                assert(depth_behind(b[b.len() - 1], open, d) == depth_behind(
                    x[x.len() - 1],
                    open,
                    d,
                ));
            },
            None => {},
        }
    }
}

/// An empty text at the start of a run does not matter to its depth.
proof fn lemma_depth_without_first(b: Seq<PieceV>, open: Seq<char>)
    requires
        b.len() > 0,
        !directive_laws::kept(b[0]),
    ensures
        directive_laws::run_depth(b.drop_first(), open) == directive_laws::run_depth(b, open),
    decreases b.len(),
{
    if b.len() == 1 {
        reveal_with_fuel(directive_laws::run_depth, 2);
        assert(b.drop_first().len() == 0);
        assert(b.drop_last().len() == 0);
    } else {
        lemma_depth_without_first(b.drop_last(), open);
        assert(b.drop_first().drop_last() =~= b.drop_last().drop_first());
        assert(b.drop_first().last() == b.last());
    }
}

/// White space at the end of a text does not matter to its depth.
proof fn lemma_depth_tail(s: Seq<char>, o: OptionsV, d: int)
    requires
        apart(o),
        s.len() > 0,
        chars::is_space(s.last()),
    ensures
        directive_laws::text_depth(s.drop_last(), o.open, d) == directive_laws::text_depth(
            s,
            o.open,
            d,
        ),
    decreases s.len(),
{
    let open = o.open;
    let m = open.len() as int;
    let t = s.drop_last();
    if chars::stands_at(s, 0, open) {
        if m == s.len() {
            assert(s.subrange(0, m)[m - 1] == s.last());
            assert(mark(open[m - 1]));
        }
        assert(t.subrange(0, m) =~= s.subrange(0, m));
        assert(s.skip(m).drop_last() =~= t.skip(m));
        assert(s.skip(m).last() == s.last());
        lemma_depth_tail(s.skip(m), o, d);
    } else if s.len() == 1 {
        assert(s[0] == s.last());
        assert(s.skip(1) =~= Seq::<char>::empty());
        reveal_with_fuel(directive_laws::text_depth, 2);
    } else {
        if chars::stands_at(t, 0, open) {
            assert(t.subrange(0, m) =~= s.subrange(0, m));
        }
        assert(s.skip(1).drop_last() =~= t.skip(1));
        assert(s.skip(1).last() == s.last());
        assert(t[0] == s[0]);
        lemma_depth_tail(s.skip(1), o, d);
        lemma_depth_tail(s.skip(1), o, d + 1);
        lemma_depth_tail(s.skip(1), o, d - 1);
    }
}

/// White space around a text does not matter to its depth.
proof fn lemma_depth_trimmed(s: Seq<char>, o: OptionsV, d: int)
    requires
        apart(o),
    ensures
        directive_laws::text_depth(chars::trim_end(s), o.open, d) == directive_laws::text_depth(
            s,
            o.open,
            d,
        ),
        directive_laws::text_depth(chars::trim_start(s), o.open, d) == directive_laws::text_depth(
            s,
            o.open,
            d,
        ),
    decreases s.len(),
{
    if s.len() > 0 && chars::is_space(s.last()) {
        lemma_depth_tail(s, o, d);
        lemma_depth_trimmed(s.drop_last(), o, d);
    }
    if s.len() > 0 && chars::is_space(s[0]) {
        lemma_depth_trimmed(s.drop_first(), o, d);
        if chars::stands_at(s, 0, o.open) {
            assert(s.subrange(0, o.open.len() as int)[0] == s[0]);
            assert(mark(o.open[0]));
        }
        assert(s.skip(1) =~= s.drop_first());
    }
}

/// No other branch begins with the beginning of a text with which none does.
proof fn lemma_else_part(s: Seq<char>, o: OptionsV, k: int)
    requires
        apart(o),
        0 <= k <= s.len(),
        no_else(s, o, 0),
    ensures
        no_else(s.take(k), o, 0),
{
    let t = s.take(k);
    if !no_else(t, o, 0) {
        lemma_words();
        lemma_after_space(t, 0);
        let n = tile::after_space(t, 0) + o.sigil.len() + 4;
        assert(t.subrange(0, n) =~= s.subrange(0, n));
        lemma_else_moved(t, s, o, 0, 0);
    }
}

/// The ends of a body, without white space.
pub open spec fn ends_trimmed(x: Seq<PieceV>) -> Seq<PieceV> {
    let a = if x.len() > 0 && x[0] is Static {
        x.update(0, PieceV::Static(chars::trim_start(x[0]->Static_0)))
    } else {
        x
    };
    if a.len() > 0 && a.last() is Static {
        a.update(a.len() - 1, PieceV::Static(chars::trim_end(a.last()->Static_0)))
    } else {
        a
    }
}

/// A piece of a body whose ends were trimmed: it is the same, or a text that
/// is a part of the one before.
proof fn lemma_end_piece<G: Grammar>(
    g: G,
    o: OptionsV,
    span: Span,
    x: Seq<PieceV>,
    i: int,
)
    requires
        apart(o),
        read_run(g, o, span, x),
        0 <= i < x.len(),
    ensures
        ({
            let b = ends_trimmed(x);
            &&& b.len() == x.len()
            &&& b[i] is Static == x[i] is Static
            &&& !(x[i] is Static) ==> b[i] == x[i]
            &&& 0 < i < x.len() - 1 ==> b[i] == x[i]
            &&& directive_laws::kept(b[i]) ==> read_piece(g, o, span, b[i])
            &&& forall|d: int| #[trigger]
                depth_behind(b[i], o.open, d) == depth_behind(x[i], o.open, d)
            &&& i > 0 ==> may_follow(o, b[i - 1], b[i])
            &&& i == 0 && b[i] is Static && directive_laws::kept(b[i]) ==> !chars::is_space(
                b[i]->Static_0[0],
            )
            &&& i == x.len() - 1 && b[i] is Static && directive_laws::kept(b[i])
                ==> !chars::is_space(b[i]->Static_0.last())
        }),
{
    let b = ends_trimmed(x);
    let none = Seq::<char>::empty();
    assert(read_piece(g, o, span, x[i]));
    if i > 0 {
        assert(may_follow(o, x[i - 1], x[i - 1 + 1]));
        assert(b[i - 1] is Static == x[i - 1] is Static);
        if x[i - 1] is Static {
            let before = x[i - 1]->Static_0;
            lemma_calm_start(before, o, opening(o, x[i]));
        }
        assert(opening(o, b[i]) == opening(o, x[i]));
    }
    if x[i] is Static {
        let s = x[i]->Static_0;
        let t = if i == 0 {
            chars::trim_start(s)
        } else {
            s
        };
        let u = if i == x.len() - 1 {
            chars::trim_end(t)
        } else {
            t
        };
        assert(b[i] == PieceV::Static(u));
        let k = lemma_trim_start_tail(s);
        let n = lemma_trim_end_take(t);
        if i == 0 {
            lemma_calm_start(s, o, none);
            chars::lemma_trim_start_first(s);
        }
        if i == x.len() - 1 {
            let e = lemma_calm_end(t, o);
            if i > 0 && lacks_else(x[i - 1]) {
                lemma_else_part(tile::escaped(s, o.open), o, e);
            }
        }
        assert forall|d: int| #[trigger]
            depth_behind(b[i], o.open, d) == depth_behind(x[i], o.open, d) by {
            lemma_depth_trimmed(s, o, d);
            lemma_depth_trimmed(t, o, d);
        }
    }
}

/// A body that is read is one that reading gives.
proof fn lemma_body_read<G: Grammar>(g: G, o: OptionsV, span: Span, x: Seq<PieceV>)
    requires
        apart(o),
        read_run(g, o, span, x),
        directive_laws::run_depth(x, o.open) == Some(0int),
    ensures
        read_body(g, o, span, tile::trimmed_body(x)),
{
    let b = ends_trimmed(x);
    let r = tile::trimmed_body(x);
    let keep = |p: PieceV| !(p is Static && p->Static_0.len() == 0);
    assert(r == b.filter(keep));
    if x.len() == 0 {
        reveal(Seq::filter);
        assert(r =~= Seq::<PieceV>::empty());
    } else {
        assert forall|i: int| 0 < i < b.len() - 1 implies directive_laws::kept(#[trigger] b[i]) by {
            lemma_end_piece(g, o, span, x, i);
            assert(read_piece(g, o, span, x[i]));
        }
        let (lo, hi) = lemma_ends_filtered(b);
        assert(r == b.subrange(lo, hi));
        let n = x.len() as int;
        assert forall|i: int| 0 <= i < r.len() implies read_piece(g, o, span, #[trigger] r[i]) by {
            lemma_end_piece(g, o, span, x, i + lo);
            assert(directive_laws::kept(b[i + lo]));
        }
        assert forall|i: int| 0 <= i < r.len() - 1 implies may_follow(
            o,
            #[trigger] r[i],
            r[i + 1],
        ) by {
            lemma_end_piece(g, o, span, x, i + lo);
            lemma_end_piece(g, o, span, x, i + lo + 1);
            assert(r[i] == b[i + lo]);
            assert(r[i + 1] == b[i + lo + 1]);
        }
        assert forall|i: int, d: int| 0 <= i < x.len() implies #[trigger] depth_behind(
            b[i],
            o.open,
            d,
        ) == depth_behind(x[i], o.open, d) by {
            lemma_end_piece(g, o, span, x, i);
        }
        lemma_same_depth(x, b, o.open);
        lemma_subrange_depth(b, o.open, lo, hi);
        if r.len() > 0 {
            lemma_end_piece(g, o, span, x, lo);
            lemma_end_piece(g, o, span, x, hi - 1);
            lemma_end_piece(g, o, span, x, 0);
            lemma_end_piece(g, o, span, x, n - 1);
            assert(r[0] == b[lo]);
            assert(r.last() == b[hi - 1]);
            if lo == 1 && r[0] is Static {
                assert(may_follow(o, x[0], x[0int + 1]));
            }
            if hi == n - 1 && r.last() is Static {
                assert(may_follow(o, x[n - 2], x[n - 2 + 1]));
            }
        }
    }
}

/// Empty texts at the ends of a run do not matter to its depth.
proof fn lemma_subrange_depth(b: Seq<PieceV>, open: Seq<char>, lo: int, hi: int)
    requires
        0 <= lo <= hi <= b.len(),
        lo <= 1,
        b.len() - 1 <= hi,
        lo == 1 ==> !directive_laws::kept(b[0]),
        hi == b.len() - 1 ==> !directive_laws::kept(b.last()),
    ensures
        directive_laws::run_depth(b.subrange(lo, hi), open) == directive_laws::run_depth(b, open),
{
    let a = if lo == 1 {
        lemma_depth_without_first(b, open);
        b.drop_first()
    } else {
        b
    };
    assert(directive_laws::run_depth(a, open) == directive_laws::run_depth(b, open));
    if hi == b.len() - 1 {
        assert(a.len() > 0);
        assert(a.last() == b.last());
        assert(b.subrange(lo, hi) =~= a.drop_last());
        match directive_laws::run_depth(a.drop_last(), open) {
            Some(d) => {
                assert(directive_laws::text_depth(a.last()->Static_0, open, d) == Some(d));
            },
            None => {},
        }
    } else {
        assert(b.subrange(lo, hi) =~= a);
    }
}

// ---------------------------------------------------------------------
// Templates that are read
// ---------------------------------------------------------------------

/// Whether what was read so far is such that reading gives: the pieces that
/// are settled, and the text that was gathered from `start` on.
pub open spec fn read_so_far<G: Grammar>(
    g: G,
    raw: Seq<char>,
    o: OptionsV,
    span: Span,
    start: int,
    pos: int,
    buf: Seq<char>,
    out: Seq<PieceV>,
) -> bool {
    &&& linked(raw, o, start, pos, buf)
    &&& read_run(g, o, span, out)
    &&& out.len() > 0 ==> !(out.last() is Static)
    &&& out.len() > 0 && lacks_else(out.last()) ==> no_else(raw, o, start)
}

/// Whether the braces of what was read so far are open to a depth.
pub open spec fn deep(o: OptionsV, depth: int, buf: Seq<char>, out: Seq<PieceV>) -> bool {
    match directive_laws::run_depth(out, o.open) {
        Some(d) => directive_laws::text_depth(buf, o.open, d) == Some(depth),
        None => false,
    }
}

/// A text that was gathered can be settled.
proof fn lemma_settled<G: Grammar>(
    g: G,
    raw: Seq<char>,
    o: OptionsV,
    span: Span,
    start: int,
    pos: int,
    buf: Seq<char>,
    out: Seq<PieceV>,
)
    requires
        apart(o),
        read_so_far(g, raw, o, span, start, pos, buf, out),
    ensures
        read_run(g, o, span, tile::flushed(out, buf)),
        forall|depth: int|
            #[trigger] deep(o, depth, buf, out) ==> directive_laws::run_depth(
                tile::flushed(out, buf),
                o.open,
            ) == Some(depth),
{
    if buf.len() > 0 {
        assert(raw.subrange(pos, pos) =~= Seq::<char>::empty());
        lemma_gathered_calm(raw, o, start, pos, buf, Seq::empty());
        if out.len() > 0 && lacks_else(out.last()) {
            lemma_gathered_else(raw, o, start, pos, buf);
        }
        let all = out.push(PieceV::Static(buf));
        assert forall|i: int| 0 <= i < all.len() implies read_piece(
            g,
            o,
            span,
            #[trigger] all[i],
        ) by {
            if i < out.len() {
                assert(all[i] == out[i]);
            }
        }
        assert forall|i: int| 0 <= i < all.len() - 1 implies may_follow(
            o,
            #[trigger] all[i],
            all[i + 1],
        ) by {
            if i < out.len() - 1 {
                assert(may_follow(o, out[i], out[i + 1]));
            } else {
                assert(out[i] == out.last());
            }
        }
        assert(all.drop_last() =~= out);
    }
}

/// A piece that is no text can be added.
proof fn lemma_piece_added<G: Grammar>(
    g: G,
    raw: Seq<char>,
    o: OptionsV,
    span: Span,
    start: int,
    pos: int,
    buf: Seq<char>,
    out: Seq<PieceV>,
    x: PieceV,
    p: int,
)
    requires
        apart(o),
        read_so_far(g, raw, o, span, start, pos, buf, out),
        read_piece(g, o, span, x),
        !(x is Static),
        chars::stands_at(raw, pos, opening(o, x)),
        0 <= p <= raw.len(),
        lacks_else(x) ==> no_else(raw, o, p),
    ensures
        ({
            let all = tile::flushed(out, buf).push(x);
            &&& read_so_far(g, raw, o, span, p, p, Seq::empty(), all)
            &&& forall|depth: int|
                #[trigger] deep(o, depth, buf, out) ==> deep(o, depth, Seq::empty(), all)
        }),
{
    lemma_settled(g, raw, o, span, start, pos, buf, out);
    let front = tile::flushed(out, buf);
    let all = front.push(x);
    assert(raw.subrange(p, p) =~= tile::escaped(Seq::empty(), o.open));
    assert forall|i: int| 0 <= i < all.len() implies read_piece(g, o, span, #[trigger] all[i]) by {
        if i < front.len() {
            assert(all[i] == front[i]);
        }
    }
    assert forall|i: int| 0 <= i < all.len() - 1 implies may_follow(
        o,
        #[trigger] all[i],
        all[i + 1],
    ) by {
        if i < front.len() - 1 {
            assert(may_follow(o, front[i], front[i + 1]));
        } else if front.last() is Static {
            assert(front.last() == PieceV::Static(buf));
            lemma_gathered_calm(raw, o, start, pos, buf, opening(o, x));
        }
    }
    assert(all.drop_last() =~= front);
    assert forall|depth: int| #[trigger] deep(o, depth, buf, out) implies deep(
        o,
        depth,
        Seq::empty(),
        all,
    ) by {
        assert(directive_laws::run_depth(all, o.open) == Some(depth));
        assert(directive_laws::text_depth(Seq::empty(), o.open, depth) == Some(depth));
    }
}

/// The pieces that are read are such that reading gives.
pub proof fn lemma_pieces_read<G: Grammar>(
    g: G,
    raw: Seq<char>,
    o: OptionsV,
    span: Span,
    in_block: bool,
    start: int,
    pos: int,
    depth: int,
    buf: Seq<char>,
    out: Seq<PieceV>,
)
    requires
        apart(o),
        read_so_far(g, raw, o, span, start, pos, buf, out),
        in_block ==> deep(o, depth, buf, out),
        tile::pieces(g, raw, o, span, in_block, pos, depth, buf, out).1 is Ok,
    ensures
        ({
            let (p, r) = tile::pieces(g, raw, o, span, in_block, pos, depth, buf, out);
            &&& read_run(g, o, span, r->Ok_0)
            &&& in_block && p < raw.len() ==> directive_laws::run_depth(r->Ok_0, o.open) == Some(
                0int,
            )
        }),
    decreases raw.len() - pos, 2nat,
{
    let m = o.open.len() as int;
    lemma_settled(g, raw, o, span, start, pos, buf, out);
    if pos >= raw.len() {
    } else if chars::stands_at(raw, pos, o.open + o.open) {
        lemma_gathered_open(raw, o, start, pos, buf);
        lemma_pieces_read(g, raw, o, span, in_block, start, pos + 2 * m, depth, buf + o.open, out);
    } else if chars::stands_at(raw, pos, o.open) {
        let (p, r) = tile::hole_at(g, raw, o, span, pos);
        let h = r->Ok_0;
        lemma_read_hole(g, raw, o, span, pos, p, h);
        let x = PieceV::Hole(h);
        lemma_piece_added(g, raw, o, span, start, pos, buf, out, x, p);
        let all = tile::flushed(out, buf).push(x);
        lemma_pieces_read(g, raw, o, span, in_block, p, p, depth, Seq::empty(), all);
    } else if tile::directive_at(raw, o, pos, "for"@) {
        let (p, r) = tile::projection(g, raw, o, span, pos);
        let x = r->Ok_0;
        lemma_projection_read(g, raw, o, span, pos);
        lemma_piece_added(g, raw, o, span, start, pos, buf, out, x, p);
        let all = tile::flushed(out, buf).push(x);
        lemma_pieces_read(g, raw, o, span, in_block, p, p, depth, Seq::empty(), all);
    } else if tile::directive_at(raw, o, pos, "if"@) {
        let (p, r) = tile::branch(g, raw, o, span, pos);
        let x = r->Ok_0;
        lemma_branch_read(g, raw, o, span, pos);
        lemma_piece_added(g, raw, o, span, start, pos, buf, out, x, p);
        let all = tile::flushed(out, buf).push(x);
        lemma_pieces_read(g, raw, o, span, in_block, p, p, depth, Seq::empty(), all);
    } else if raw[pos] == '}' && in_block && depth == 0 {
    } else {
        lemma_gathered_one(raw, o, start, pos, buf);
        let c = raw[pos];
        let d = if c == '{' {
            depth + 1
        } else if c == '}' {
            depth - 1
        } else {
            depth
        };
        if in_block {
            let before = directive_laws::run_depth(out, o.open)->0;
            assert(directive_laws::text_depth(buf.push(c), o.open, before) == shifted(
                directive_laws::text_depth(buf, o.open, before),
                c,
            ));
        }
        lemma_pieces_read(g, raw, o, span, in_block, start, pos + 1, d, buf.push(c), out);
    }
}

/// A block that is read is such that reading gives.
proof fn lemma_block_read<G: Grammar>(g: G, raw: Seq<char>, o: OptionsV, span: Span, pos: int)
    requires
        apart(o),
        tile::block(g, raw, o, span, pos).1 is Ok,
    ensures
        read_body(g, o, span, tile::block(g, raw, o, span, pos).1->Ok_0),
        0 <= tile::block(g, raw, o, span, pos).0 <= raw.len(),
    decreases raw.len() - pos, 0nat,
{
    let none = Seq::<char>::empty();
    let nothing = Seq::<PieceV>::empty();
    assert(raw.subrange(pos + 1, pos + 1) =~= tile::escaped(none, o.open));
    assert(directive_laws::text_depth(none, o.open, 0) == Some(0int));
    assert(directive_laws::run_depth(nothing, o.open) == Some(0int));
    lemma_pieces_read(g, raw, o, span, true, pos + 1, pos + 1, 0, none, nothing);
    let (p, r) = tile::pieces(g, raw, o, span, true, pos + 1, 0, none, nothing);
    lemma_body_read(g, o, span, r->Ok_0);
}

/// A projection that is read is such that reading gives.
proof fn lemma_projection_read<G: Grammar>(
    g: G,
    raw: Seq<char>,
    o: OptionsV,
    span: Span,
    pos: int,
)
    requires
        apart(o),
        tile::directive_at(raw, o, pos, "for"@),
        tile::projection(g, raw, o, span, pos).1 is Ok,
    ensures
        ({
            let x = tile::projection(g, raw, o, span, pos).1->Ok_0;
            &&& x is Projection
            &&& read_piece(g, o, span, x)
        }),
    decreases raw.len() - pos, 1nat,
{
    lemma_words();
    let from = pos + o.sigil.len() + 3;
    header_laws::lemma_read_header_runs(raw, o, span, from);
    let (p, r) = tile::header(raw, o, span, from, 0, None, Seq::empty());
    let h = r->Ok_0;
    assert(chars::is_space(raw[from]));
    assert(raw[p] == '{');
    assert(h[0] == raw[from]);
    match tile::projection(g, raw, o, span, pos).1->Ok_0 {
        PieceV::Projection(source, sep, _, _) => {
            assert(head_read(g, o, source, sep, h));
        },
        _ => {},
    }
    lemma_block_read(g, raw, o, span, p);
}

/// A branch that is read is such that reading gives.
proof fn lemma_branch_read<G: Grammar>(g: G, raw: Seq<char>, o: OptionsV, span: Span, pos: int)
    requires
        apart(o),
        0 <= pos,
        tile::branch(g, raw, o, span, pos).1 is Ok,
    ensures
        ({
            let (p, r) = tile::branch(g, raw, o, span, pos);
            &&& r->Ok_0 is Branch
            &&& read_piece(g, o, span, r->Ok_0)
            &&& lacks_else(r->Ok_0) ==> no_else(raw, o, p)
        }),
    decreases raw.len() - pos, 1nat,
{
    let (p, h) = tile::header(raw, o, span, pos + o.sigil.len() + 2, 0, None, Seq::empty());
    match tile::branch(g, raw, o, span, pos).1->Ok_0 {
        PieceV::Branch(cond, _, _, _) => {
            assert(condition_read(g, cond, chars::trim(h->Ok_0)));
        },
        _ => {},
    }
    lemma_block_read(g, raw, o, span, p);
    let p2 = tile::block(g, raw, o, span, p).0;
    let q = tile::after_space(raw, p2);
    let other = o.sigil + "else"@;
    if chars::stands_at(raw, q, other) {
        let q2 = tile::after_space(raw, q + other.len());
        lemma_block_read(g, raw, o, span, q2);
    }
}

} // verus!
