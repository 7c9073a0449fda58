//! The reading of templates.
//!
//! A template is read from left to right. What opens a hole, twice in a
//! row, stands for itself; once, it opens a hole. The sigil before `for` or
//! `if` begins a directive, whose body stands in braces. Braces within
//! plain text are balanced, so that only one that was never opened ends a
//! body.
use crate::chars;
use crate::dsl::ast::{Expr, ExprV, Span};
use crate::dsl::template;
use crate::dsl::template::{
    ForSource, ForSourceV, HoleV, OptionsV, PieceV, Reading, ReadingV, TileHole, TileOptions,
    TilePiece,
};
use crate::value;
use crate::value::PortType;
use vstd::prelude::*;

verus! {

// ---------------------------------------------------------------------
// What reading takes from outside
// ---------------------------------------------------------------------

/// The content of the outcome of an expression.
pub open spec fn reading_outcome(r: Result<Reading, String>) -> Result<ReadingV, Seq<char>> {
    match r {
        Ok(x) => Ok(x@),
        Err(e) => Err(e@),
    }
}

/// The content of the outcome of a source.
pub open spec fn source_outcome(r: Result<ForSource, String>) -> Result<ForSourceV, Seq<char>> {
    match r {
        Ok(x) => Ok(x@),
        Err(e) => Err(e@),
    }
}

/// The grammar of what stands in holes and headers.
pub trait Grammar {
    /// The expression that a text is.
    spec fn expression(&self, text: Seq<char>) -> Result<ReadingV, Seq<char>>;

    /// The source that a text is.
    spec fn source(&self, text: Seq<char>) -> Result<ForSourceV, Seq<char>>;

    /// The expression that `text` is.
    fn parse_expression(&self, text: &str) -> (r: Result<Reading, String>)
        ensures
            reading_outcome(r) == self.expression(text@),
    ;

    /// The source that `text` is.
    fn for_source_from_text(&self, text: &str) -> (r: Result<ForSource, String>)
        ensures
            source_outcome(r) == self.source(text@),
    ;
}

/// A grammar of names: an expression is a name, a source any text.
#[derive(Debug)]
pub struct Names;

/// Whether a text is a name.
pub open spec fn name_like(s: Seq<char>) -> bool {
    crate::dsl::refs::identifier(s)
}

impl Grammar for Names {
    open spec fn expression(&self, text: Seq<char>) -> Result<ReadingV, Seq<char>> {
        if name_like(text) {
            Ok(
                ReadingV {
                    expr: ExprV::Ident(text, crate::dsl::ast::nowhere()),
                    shown: text,
                },
            )
        } else {
            Err("not a name"@)
        }
    }

    open spec fn source(&self, text: Seq<char>) -> Result<ForSourceV, Seq<char>> {
        Ok(ForSourceV { text, producer: None })
    }

    fn parse_expression(&self, text: &str) -> (r: Result<Reading, String>) {
        if crate::dsl::refs::is_identifier(&chars::chars_of(text)) {
            Ok(
                Reading {
                    expr: Expr::Ident(text.to_owned(), Span { line: 0, col: 0 }),
                    shown: text.to_owned(),
                },
            )
        } else {
            Err("not a name".to_owned())
        }
    }

    fn for_source_from_text(&self, text: &str) -> (r: Result<ForSource, String>) {
        Ok(ForSource { text: text.to_owned(), producer: None })
    }
}

// ---------------------------------------------------------------------
// Pieces of text
// ---------------------------------------------------------------------

/// A message with its place.
pub open spec fn message(span: Span, pos: int, msg: Seq<char>) -> Seq<char> {
    "tile at line "@ + chars::decimal(span.line as nat) + ", col "@ + chars::decimal(
        span.col as nat,
    ) + ": "@ + msg + " (template offset "@ + chars::decimal(pos as nat) + ")"@
}

/// The message `msg` with its place.
fn build_message(span: Span, pos: usize, msg: &str) -> (r: String)
    ensures
        r@ == message(span, pos as int, msg@),
{
    let mut out: String = "tile at line ".to_owned();
    out.append(chars::usize_text(span.line).as_str());
    out.append(", col ");
    out.append(chars::usize_text(span.col).as_str());
    out.append(": ");
    out.append(msg);
    out.append(" (template offset ");
    out.append(chars::usize_text(pos).as_str());
    out.append(")");
    out
}

/// The depth of brackets after a character.
pub open spec fn deeper(c: char, depth: int) -> int {
    if c == '(' || c == '[' || c == '{' {
        depth + 1
    } else if c == ')' || c == ']' || c == '}' {
        depth - 1
    } else {
        depth
    }
}

/// The quote that a character opens, if it is one.
pub open spec fn opens_quote(c: char) -> Option<char> {
    if c == '"' || c == '\'' {
        Some(c)
    } else {
        None
    }
}

/// The text up to what closes a hole, outside brackets and quotes: the
/// place after it and the text, or the end where nothing closes it.
pub open spec fn closing(
    s: Seq<char>,
    close: Seq<char>,
    pos: int,
    depth: int,
    quote: Option<char>,
    buf: Seq<char>,
) -> (int, Option<Seq<char>>)
    decreases s.len() - pos,
{
    if pos < 0 || pos >= s.len() {
        (pos, None)
    } else {
        let c = s[pos];
        match quote {
            Some(q) => if c == '\\' && pos + 1 < s.len() {
                closing(s, close, pos + 2, depth, quote, buf.push(c).push(s[pos + 1]))
            } else if c == q {
                closing(s, close, pos + 1, depth, None, buf.push(c))
            } else {
                closing(s, close, pos + 1, depth, quote, buf.push(c))
            },
            None => if depth == 0 && chars::stands_at(s, pos, close) {
                (pos + close.len(), Some(buf))
            } else {
                closing(
                    s,
                    close,
                    pos + 1,
                    if opens_quote(c) is Some {
                        depth
                    } else {
                        deeper(c, depth)
                    },
                    opens_quote(c),
                    buf.push(c),
                )
            },
        }
    }
}

/// The last place of a character outside brackets and quotes.
pub open spec fn last_top(
    s: Seq<char>,
    needle: char,
    pos: int,
    depth: int,
    quote: Option<char>,
    found: Option<int>,
) -> Option<int>
    decreases s.len() - pos,
{
    if pos < 0 || pos >= s.len() {
        found
    } else {
        let c = s[pos];
        match quote {
            Some(q) => if c == q {
                last_top(s, needle, pos + 1, depth, None, found)
            } else {
                last_top(s, needle, pos + 1, depth, quote, found)
            },
            None => if opens_quote(c) is Some {
                last_top(s, needle, pos + 1, depth, opens_quote(c), found)
            } else if deeper(c, depth) != depth {
                last_top(s, needle, pos + 1, deeper(c, depth), None, found)
            } else if depth == 0 && c == needle {
                last_top(s, needle, pos + 1, depth, None, Some(pos))
            } else {
                last_top(s, needle, pos + 1, depth, None, found)
            },
        }
    }
}

/// The last place of a character outside brackets and quotes.
pub open spec fn top_level(s: Seq<char>, needle: char) -> Option<int> {
    last_top(s, needle, 0, 0, None, None)
}

pub proof fn lemma_last_top(
    s: Seq<char>,
    needle: char,
    pos: int,
    depth: int,
    quote: Option<char>,
    found: Option<int>,
)
    requires
        0 <= pos <= s.len(),
        found matches Some(i) ==> 0 <= i < s.len() && s[i] == needle,
    ensures
        last_top(s, needle, pos, depth, quote, found) matches Some(i) ==> 0 <= i < s.len() && s[i]
            == needle,
    decreases s.len() - pos,
{
    if pos < s.len() {
        let c = s[pos];
        match quote {
            Some(q) => if c == q {
                lemma_last_top(s, needle, pos + 1, depth, None, found);
            } else {
                lemma_last_top(s, needle, pos + 1, depth, quote, found);
            },
            None => if opens_quote(c) is Some {
                lemma_last_top(s, needle, pos + 1, depth, opens_quote(c), found);
            } else if deeper(c, depth) != depth {
                lemma_last_top(s, needle, pos + 1, deeper(c, depth), None, found);
            } else if depth == 0 && c == needle {
                lemma_last_top(s, needle, pos + 1, depth, None, Some(pos));
            } else {
                lemma_last_top(s, needle, pos + 1, depth, None, found);
            },
        }
    }
}

/// Whether every character of a text may stand in a format.
pub open spec fn format_like(s: Seq<char>) -> bool {
    forall|i: int|
        0 <= i < s.len() ==> chars::is_alpha(#[trigger] s[i]) || chars::is_digit(s[i])
            || ".<>^-+#0_"@.contains(s[i])
}

/// Whether every character of a text may stand in a name.
pub open spec fn word_like(s: Seq<char>) -> bool {
    forall|i: int| 0 <= i < s.len() ==> chars::is_word(#[trigger] s[i])
}

/// A hole's body without the format after its last bar, and the format.
pub open spec fn format_split(body: Seq<char>) -> (Seq<char>, Option<Seq<char>>) {
    match top_level(body, '|') {
        Some(i) => {
            let left = body.take(i);
            let tail = chars::trim(body.skip(i + 1));
            if !(left.len() > 0 && left.last() == '|') && format_like(tail) && tail.len() > 0 {
                (chars::trim(left), Some(tail))
            } else {
                (body, None)
            }
        },
        None => (body, None),
    }
}

/// A hole's body without the type after its last colon, and the type.
pub open spec fn type_split(body: Seq<char>) -> (Seq<char>, Option<Seq<char>>) {
    match top_level(body, ':') {
        Some(i) => {
            let kw = chars::trim(body.skip(i + 1));
            if value::port_of_keyword(kw) is Some {
                (chars::trim(body.take(i)), Some(kw))
            } else {
                (body, None)
            }
        },
        None => (body, None),
    }
}

/// What is wrong with a hole whose body is no expression.
pub open spec fn hole_fault(text: Seq<char>, body: Seq<char>, e: Seq<char>) -> Seq<char> {
    let plain = "hole `"@ + text + "`: "@ + e;
    match top_level(body, ':') {
        Some(i) => {
            let word = chars::trim(body.skip(i + 1));
            if word.len() > 0 && word_like(word) {
                "hole `"@ + text + "`: unknown type '"@ + word
                    + "'; types are the port-type keywords (u64, i64, f64, str, bool, json, bytes, ...)"@
            } else {
                plain
            }
        },
        None => plain,
    }
}

/// Reads what stands in a hole.
pub open spec fn hole_of<G: Grammar>(g: G, inner: Seq<char>, span: Span) -> Result<
    HoleV,
    Seq<char>,
> {
    let text = chars::trim(inner);
    if text.len() == 0 {
        Err("empty hole"@)
    } else {
        let raw = text.last() == '!';
        let body = if raw {
            chars::trim(text.drop_last())
        } else {
            text
        };
        let (body, format) = format_split(body);
        let (body, decl_type) = type_split(body);
        if body.len() == 0 {
            Err("hole `"@ + text + "` has no expression"@)
        } else {
            match g.expression(body) {
                Err(e) => Err(hole_fault(text, body, e)),
                Ok(x) => Ok(HoleV { text, expr: x.expr, decl_type, format, raw, span }),
            }
        }
    }
}

/// Reads a hole at `pos`: the place after it and the hole.
pub open spec fn hole_at<G: Grammar>(g: G, s: Seq<char>, o: OptionsV, span: Span, pos: int) -> (
    int,
    Result<HoleV, Seq<char>>,
) {
    let (p, inner) = closing(s, o.close, pos + o.open.len(), 0, None, Seq::empty());
    match inner {
        None => (
            p,
            Err(message(span, p, "unterminated hole; expected `"@ + o.close + "`"@)),
        ),
        Some(t) => match hole_of(g, t, span) {
            Err(e) => (p, Err(message(span, p, e))),
            Ok(h) => (p, Ok(h)),
        },
    }
}

/// Whether a character joins a placeholder to a header.
pub open spec fn header_mark(c: char) -> bool {
    "<>=!+-*/%.,()[]&|?:"@.contains(c)
}

/// The end of the word characters from `i` on.
pub open spec fn word_end(s: Seq<char>, i: int) -> int
    decreases s.len() - i,
{
    if i < 0 || i >= s.len() || !chars::is_word(s[i]) {
        i
    } else {
        word_end(s, i + 1)
    }
}

/// The length of a name in braces at `pos`, if one stands there.
pub open spec fn placeholder_size(s: Seq<char>, pos: int) -> Option<int> {
    if pos + 1 < s.len() && (chars::is_alpha(s[pos + 1]) || s[pos + 1] == '_') {
        let end = word_end(s, pos + 1);
        if end < s.len() && s[end] == '}' {
            Some(end + 1 - pos)
        } else {
            None
        }
    } else {
        None
    }
}

/// Whether a brace at `pos` is that of a placeholder in a header, rather
/// than that of the body: it is joined to the header on one side, or an
/// operator follows it.
pub open spec fn joins(s: Seq<char>, o: OptionsV, pos: int, buf: Seq<char>) -> bool {
    match placeholder_size(s, pos) {
        None => false,
        Some(n) => {
            let before = buf.len() > 0 && header_mark(buf.last());
            let after = pos + n < s.len() && header_mark(s[pos + n]);
            if before || after {
                true
            } else {
                let rest = chars::trim_start(s.skip(pos + n));
                !(rest.len() == 0 || chars::begins(rest, o.sigil) || chars::begins(rest, o.open))
                    && header_mark(rest[0]) && !"()[]"@.contains(rest[0])
            }
        },
    }
}

/// The header of a directive from `pos` on: the place of the brace of its
/// body and the text before it, or what is wrong.
pub open spec fn header(
    s: Seq<char>,
    o: OptionsV,
    span: Span,
    pos: int,
    depth: int,
    quote: Option<char>,
    buf: Seq<char>,
) -> (int, Result<Seq<char>, Seq<char>>)
    decreases s.len() - pos,
{
    if pos < 0 || pos >= s.len() {
        (pos, Err(message(span, pos, "directive has no `{` block"@)))
    } else {
        let c = s[pos];
        match quote {
            Some(q) => header(
                s,
                o,
                span,
                pos + 1,
                depth,
                if c == q {
                    None
                } else {
                    quote
                },
                buf.push(c),
            ),
            None => if depth == 0 && !(o.open.len() > 0 && o.open[0] == '{') && chars::stands_at(
                s,
                pos,
                o.open,
            ) {
                (
                    pos,
                    Err(
                        message(
                            span,
                            pos,
                            "directive has no `{` block; a hole cannot appear in a directive header"@,
                        ),
                    ),
                )
            } else if depth == 0 && c == '{' && !joins(s, o, pos, buf) {
                (pos, Ok(buf))
            } else {
                header(
                    s,
                    o,
                    span,
                    pos + 1,
                    if c == '(' || c == '[' {
                        depth + 1
                    } else if c == ')' || c == ']' {
                        depth - 1
                    } else {
                        depth
                    },
                    opens_quote(c),
                    buf.push(c),
                )
            },
        }
    }
}

/// The text with every escaped quote as a quote.
pub open spec fn unescaped(s: Seq<char>) -> Seq<char>
    decreases s.len(),
{
    if s.len() == 0 {
        s
    } else if s.len() > 1 && s[0] == '\\' && s[1] == '"' {
        seq!['"'] + unescaped(s.skip(2))
    } else {
        seq![s[0]] + unescaped(s.drop_first())
    }
}

/// The last place of a quote.
pub open spec fn last_quote(s: Seq<char>) -> Option<int>
    decreases s.len(),
{
    if s.len() == 0 {
        None
    } else if s.last() == '"' {
        Some(s.len() - 1)
    } else {
        last_quote(s.drop_last())
    }
}

/// A header without the separator at its end, and the separator.
pub open spec fn sep_split(h: Seq<char>) -> (Seq<char>, Option<Seq<char>>) {
    let t = chars::trim_end(unescaped(h));
    if t.len() > 0 && t.last() == '"' {
        let q = t.drop_last();
        match last_quote(q) {
            Some(i) => {
                let head = chars::trim_end(q.take(i));
                if chars::ends(head, " sep"@) {
                    (chars::trim_end(head.take(head.len() - 3)), Some(q.skip(i + 1)))
                } else {
                    (t, None)
                }
            },
            None => (t, None),
        }
    } else {
        (t, None)
    }
}

/// The place after the white space from `pos` on.
pub open spec fn after_space(s: Seq<char>, pos: int) -> int
    decreases s.len() - pos,
{
    if pos < 0 || pos >= s.len() || !chars::is_space(s[pos]) {
        pos
    } else {
        after_space(s, pos + 1)
    }
}

/// A body without the white space at its ends.
pub open spec fn trimmed_body(body: Seq<PieceV>) -> Seq<PieceV> {
    let a = if body.len() > 0 && body[0] is Static {
        body.update(0, PieceV::Static(chars::trim_start(body[0]->Static_0)))
    } else {
        body
    };
    let b = if a.len() > 0 && a.last() is Static {
        a.update(a.len() - 1, PieceV::Static(chars::trim_end(a.last()->Static_0)))
    } else {
        a
    };
    b.filter(|p: PieceV| !(p is Static && p->Static_0.len() == 0))
}

/// Text that was gathered, as a piece where it is not empty.
pub open spec fn flushed(out: Seq<PieceV>, buf: Seq<char>) -> Seq<PieceV> {
    if buf.len() == 0 {
        out
    } else {
        out.push(PieceV::Static(buf))
    }
}

/// Whether a directive of a name begins at `pos`.
pub open spec fn directive_at(s: Seq<char>, o: OptionsV, pos: int, word: Seq<char>) -> bool {
    let p = pos + o.sigil.len();
    chars::stands_at(s, pos, o.sigil) && chars::stands_at(s, p, word) && p + word.len() < s.len()
        && chars::is_space(s[p + word.len()])
}

// ---------------------------------------------------------------------
// Templates
// ---------------------------------------------------------------------

/// Reads pieces from `pos` on, up to the end, or, in a body, to the brace
/// that ends it. `depth` counts the braces of plain text that are open,
/// `buf` is the text that was gathered and `out` what was read so far.
pub open spec fn pieces<G: Grammar>(
    g: G,
    s: Seq<char>,
    o: OptionsV,
    span: Span,
    in_block: bool,
    pos: int,
    depth: int,
    buf: Seq<char>,
    out: Seq<PieceV>,
) -> (int, Result<Seq<PieceV>, Seq<char>>)
    decreases s.len() - pos, 2nat,
{
    if pos < 0 || pos >= s.len() {
        (pos, Ok(flushed(out, buf)))
    } else if o.open.len() == 0 {
        (pos, Err(Seq::empty()))
    } else if chars::stands_at(s, pos, o.open + o.open) {
        pieces(g, s, o, span, in_block, pos + 2 * o.open.len(), depth, buf + o.open, out)
    } else if chars::stands_at(s, pos, o.open) {
        let (p, r) = hole_at(g, s, o, span, pos);
        match r {
            Err(e) => (p, Err(e)),
            Ok(h) => if pos < p <= s.len() {
                pieces(
                    g,
                    s,
                    o,
                    span,
                    in_block,
                    p,
                    depth,
                    Seq::empty(),
                    flushed(out, buf).push(PieceV::Hole(h)),
                )
            } else {
                (p, Err(Seq::empty()))
            },
        }
    } else if directive_at(s, o, pos, "for"@) {
        let (p, r) = projection(g, s, o, span, pos);
        match r {
            Err(e) => (p, Err(e)),
            Ok(x) => if pos < p <= s.len() {
                pieces(
                    g,
                    s,
                    o,
                    span,
                    in_block,
                    p,
                    depth,
                    Seq::empty(),
                    flushed(out, buf).push(x),
                )
            } else {
                (p, Err(Seq::empty()))
            },
        }
    } else if directive_at(s, o, pos, "if"@) {
        let (p, r) = branch(g, s, o, span, pos);
        match r {
            Err(e) => (p, Err(e)),
            Ok(x) => if pos < p <= s.len() {
                pieces(
                    g,
                    s,
                    o,
                    span,
                    in_block,
                    p,
                    depth,
                    Seq::empty(),
                    flushed(out, buf).push(x),
                )
            } else {
                (p, Err(Seq::empty()))
            },
        }
    } else if s[pos] == '}' && in_block && depth == 0 {
        (pos, Ok(flushed(out, buf)))
    } else {
        pieces(
            g,
            s,
            o,
            span,
            in_block,
            pos + 1,
            if s[pos] == '{' {
                depth + 1
            } else if s[pos] == '}' {
                depth - 1
            } else {
                depth
            },
            buf.push(s[pos]),
            out,
        )
    }
}

/// Reads a body at `pos`.
pub open spec fn block<G: Grammar>(g: G, s: Seq<char>, o: OptionsV, span: Span, pos: int) -> (
    int,
    Result<Seq<PieceV>, Seq<char>>,
)
    decreases s.len() - pos, 0nat,
{
    if pos < 0 || pos >= s.len() || s[pos] != '{' {
        (pos, Err(message(span, pos, "expected `{`"@)))
    } else {
        let (p, r) = pieces(g, s, o, span, true, pos + 1, 0, Seq::empty(), Seq::empty());
        match r {
            Err(e) => (p, Err(e)),
            Ok(body) => if p < 0 || p >= s.len() || s[p] != '}' {
                (p, Err(message(span, p, "unterminated block; expected `}`"@)))
            } else {
                (p + 1, Ok(trimmed_body(body)))
            },
        }
    }
}

/// Reads a projection at `pos`.
pub open spec fn projection<G: Grammar>(g: G, s: Seq<char>, o: OptionsV, span: Span, pos: int) -> (
    int,
    Result<PieceV, Seq<char>>,
)
    decreases s.len() - pos, 1nat,
{
    let (p, h) = header(s, o, span, pos + o.sigil.len() + 3, 0, None, Seq::empty());
    match h {
        Err(e) => (p, Err(e)),
        Ok(h) => {
            let (text, sep) = sep_split(h);
            match g.source(chars::trim(text)) {
                Err(e) => (p, Err(message(span, p, "projection: "@ + e))),
                Ok(source) => if pos < p <= s.len() {
                    let (p2, r) = block(g, s, o, span, p);
                    match r {
                        Err(e) => (p2, Err(e)),
                        Ok(body) => (p2, Ok(PieceV::Projection(source, sep, body, span))),
                    }
                } else {
                    (p, Err(Seq::empty()))
                },
            }
        },
    }
}

/// Reads a branch at `pos`.
pub open spec fn branch<G: Grammar>(g: G, s: Seq<char>, o: OptionsV, span: Span, pos: int) -> (
    int,
    Result<PieceV, Seq<char>>,
)
    decreases s.len() - pos, 1nat,
{
    let (p, h) = header(s, o, span, pos + o.sigil.len() + 2, 0, None, Seq::empty());
    match h {
        Err(e) => (p, Err(e)),
        Ok(h) => match g.expression(chars::trim(h)) {
            Err(e) => (
                p,
                Err(
                    message(
                        span,
                        p,
                        "branch condition `"@ + chars::trim(h) + "`: "@ + e,
                    ),
                ),
            ),
            Ok(cond) => if pos < p <= s.len() {
                let (p2, r) = block(g, s, o, span, p);
                match r {
                    Err(e) => (p2, Err(e)),
                    Ok(yes) => {
                        let q = after_space(s, p2);
                        let other = o.sigil + "else"@;
                        if chars::stands_at(s, q, other) {
                            let q2 = after_space(s, q + other.len());
                            if pos < q2 <= s.len() {
                                let (p3, r2) = block(g, s, o, span, q2);
                                match r2 {
                                    Err(e) => (p3, Err(e)),
                                    Ok(no) => (
                                        p3,
                                        Ok(PieceV::Branch(cond, yes, Some(no), span)),
                                    ),
                                }
                            } else {
                                (q2, Err(Seq::empty()))
                            }
                        } else {
                            (p2, Ok(PieceV::Branch(cond, yes, None, span)))
                        }
                    },
                }
            } else {
                (p, Err(Seq::empty()))
            },
        },
    }
}

/// Reads a template.
pub open spec fn template_of<G: Grammar>(g: G, s: Seq<char>, o: OptionsV, span: Span) -> Result<
    Seq<PieceV>,
    Seq<char>,
> {
    let (p, r) = pieces(g, s, o, span, false, 0, 0, Seq::empty(), Seq::empty());
    match r {
        Err(e) => Err(e),
        Ok(out) => if p < s.len() {
            Err(
                message(
                    span,
                    p,
                    "unexpected `}` closing a block that was never opened"@,
                ),
            )
        } else {
            Ok(out)
        },
    }
}

// ---------------------------------------------------------------------
// Reading
// ---------------------------------------------------------------------

/// Whether `word` stands at `pos`.
pub(crate) fn stands(text: &Vec<char>, pos: usize, word: &str) -> (r: bool)
    ensures
        r == chars::stands_at(text@, pos as int, word@),
{
    chars::has_at(text, pos, &chars::chars_of(word))
}

/// How many characters `s` has.
pub(crate) fn size(s: &str) -> (r: usize)
    ensures
        r == s@.len(),
{
    let c: Vec<char> = chars::chars_of(s);
    c.len()
}

/// The text up to what closes a hole.
fn until_close(text: &Vec<char>, close: &str, start: usize) -> (r: (usize, Option<Vec<char>>))
    requires
        start <= text@.len(),
    ensures
        start <= r.0 <= text@.len(),
        closing(text@, close@, start as int, 0, None, Seq::empty()) == (
            r.0 as int,
            match r.1 {
                Some(b) => Some(b@),
                None => None,
            },
        ),
{
    let ghost goal = closing(text@, close@, start as int, 0, None, Seq::empty());
    let closer: Vec<char> = chars::chars_of(close);
    let mut pos: usize = start;
    let mut depth: i128 = 0;
    let mut quote: Option<char> = None;
    let mut buf: Vec<char> = Vec::new();
    while pos < text.len()
        invariant
            start <= pos <= text@.len(),
            -(pos as int) <= depth <= pos,
            closer@ == close@,
            goal == closing(text@, close@, start as int, 0, None, Seq::empty()),
            goal == closing(text@, close@, pos as int, depth as int, quote, buf@),
        decreases text.len() - pos,
    {
        let c: char = text[pos];
        match quote {
            Some(q) => {
                buf.push(c);
                pos = pos + 1;
                if c == '\\' && pos < text.len() {
                    buf.push(text[pos]);
                    pos = pos + 1;
                } else if c == q {
                    quote = None;
                }
            },
            None => {
                if depth == 0 && chars::has_at(text, pos, &closer) {
                    return (pos + closer.len(), Some(buf));
                }
                if c == '"' || c == '\'' {
                    quote = Some(c);
                } else if c == '(' || c == '[' || c == '{' {
                    depth = depth + 1;
                } else if c == ')' || c == ']' || c == '}' {
                    depth = depth - 1;
                }
                buf.push(c);
                pos = pos + 1;
            },
        }
    }
    (pos, None)
}

/// The last place of `needle` outside brackets and quotes.
fn rfind_top_level(s: &Vec<char>, needle: char) -> (r: Option<usize>)
    ensures
        match r {
            Some(i) => i < s@.len() && top_level(s@, needle) == Some(i as int),
            None => top_level(s@, needle) is None,
        },
{
    let mut pos: usize = 0;
    let mut depth: i128 = 0;
    let mut quote: Option<char> = None;
    let mut found: Option<usize> = None;
    let ghost mut told: Option<int> = None;
    while pos < s.len()
        invariant
            pos <= s@.len(),
            -(pos as int) <= depth <= pos,
            told == match found {
                Some(i) => Some(i as int),
                None => None,
            },
            found matches Some(i) ==> i < s@.len(),
            top_level(s@, needle) == last_top(s@, needle, pos as int, depth as int, quote, told),
        decreases s.len() - pos,
    {
        let c: char = s[pos];
        match quote {
            Some(q) => {
                if c == q {
                    quote = None;
                }
            },
            None => {
                if c == '"' || c == '\'' {
                    quote = Some(c);
                } else if c == '(' || c == '[' || c == '{' {
                    depth = depth + 1;
                } else if c == ')' || c == ']' || c == '}' {
                    depth = depth - 1;
                } else if depth == 0 && c == needle {
                    found = Some(pos);
                    proof {
                        told = Some(pos as int);
                    }
                }
            },
        }
        pos = pos + 1;
    }
    found
}

/// Whether every character of `s` may stand in a format.
fn is_format_like(s: &Vec<char>) -> (r: bool)
    ensures
        r == format_like(s@),
{
    let mut i: usize = 0;
    while i < s.len()
        invariant
            i <= s@.len(),
            forall|k: int|
                0 <= k < i ==> chars::is_alpha(#[trigger] s@[k]) || chars::is_digit(s@[k])
                    || ".<>^-+#0_"@.contains(s@[k]),
        decreases s.len() - i,
    {
        if !(chars::alpha(s[i]) || chars::digit(s[i]) || chars::one_of(s[i], ".<>^-+#0_")) {
            return false;
        }
        i = i + 1;
    }
    true
}

/// Whether every character of `s` may stand in a name.
fn is_word_like(s: &Vec<char>) -> (r: bool)
    ensures
        r == word_like(s@),
{
    let mut i: usize = 0;
    while i < s.len()
        invariant
            i <= s@.len(),
            forall|k: int| 0 <= k < i ==> chars::is_word(#[trigger] s@[k]),
        decreases s.len() - i,
    {
        if !chars::word(s[i]) {
            return false;
        }
        i = i + 1;
    }
    true
}

/// The characters of `s` from `from` on, without the white space around.
fn tail_of(s: &Vec<char>, from: usize) -> (r: Vec<char>)
    requires
        from <= s@.len(),
    ensures
        r@ == chars::trim(s@.skip(from as int)),
{
    let part: Vec<char> = chars::slice_chars(s, from, s.len());
    assert(part@ =~= s@.skip(from as int));
    chars::trim_chars(&part)
}

/// The characters of `s` before `to`, without the white space around.
fn head_of(s: &Vec<char>, to: usize) -> (r: Vec<char>)
    requires
        to <= s@.len(),
    ensures
        r@ == chars::trim(s@.take(to as int)),
{
    let part: Vec<char> = chars::slice_chars(s, 0, to);
    assert(part@ =~= s@.take(to as int));
    chars::trim_chars(&part)
}

/// The content of a run of characters that may be missing.
pub open spec fn maybe_chars(t: Option<Vec<char>>) -> Option<Seq<char>> {
    match t {
        Some(s) => Some(s@),
        None => None,
    }
}

/// A hole's body without its format, and the format.
fn split_format(body: Vec<char>) -> (r: (Vec<char>, Option<Vec<char>>))
    ensures
        (r.0@, maybe_chars(r.1)) == format_split(body@),
{
    assert(body@.len() == body.len());
    match rfind_top_level(&body, '|') {
        Some(i) => {
            let tail: Vec<char> = tail_of(&body, i + 1);
            let doubled: bool = i > 0 && body[i - 1] == '|';
            assert(doubled == (body@.take(i as int).len() > 0 && body@.take(i as int).last()
                == '|'));
            if !doubled && is_format_like(&tail) && tail.len() > 0 {
                (head_of(&body, i), Some(tail))
            } else {
                (body, None)
            }
        },
        None => (body, None),
    }
}

/// A hole's body without its type, and the type.
fn split_type(body: Vec<char>) -> (r: (Vec<char>, Option<Vec<char>>))
    ensures
        (r.0@, maybe_chars(r.1)) == type_split(body@),
{
    assert(body@.len() == body.len());
    match rfind_top_level(&body, ':') {
        Some(i) => {
            let kw: Vec<char> = tail_of(&body, i + 1);
            let word: String = chars::string_of(&kw);
            match PortType::from_keyword(word.as_str()) {
                Some(_) => (head_of(&body, i), Some(kw)),
                None => (body, None),
            }
        },
        None => (body, None),
    }
}

/// What is wrong with a hole whose body is no expression.
fn say_hole_fault(text: &str, body: &Vec<char>, e: &str) -> (r: String)
    ensures
        r@ == hole_fault(text@, body@, e@),
{
    assert(body@.len() == body.len());
    let mut out: String = "hole `".to_owned();
    out.append(text);
    match rfind_top_level(body, ':') {
        Some(i) => {
            let word: Vec<char> = tail_of(body, i + 1);
            if word.len() > 0 && is_word_like(&word) {
                out.append("`: unknown type '");
                out.append(chars::string_of(&word).as_str());
                out.append(
                    "'; types are the port-type keywords (u64, i64, f64, str, bool, json, bytes, ...)",
                );
                return out;
            }
        },
        None => {},
    }
    out.append("`: ");
    out.append(e);
    out
}

/// The string of a run of characters, if there is one.
fn maybe_string(t: Option<Vec<char>>) -> (r: Option<String>)
    ensures
        template::maybe(r) == maybe_chars(t),
{
    match t {
        Some(s) => Some(chars::string_of(&s)),
        None => None,
    }
}

/// The content of the outcome of a hole.
pub open spec fn hole_outcome(r: Result<TileHole, String>) -> Result<HoleV, Seq<char>> {
    match r {
        Ok(h) => Ok(h@),
        Err(e) => Err(e@),
    }
}

/// Reads what stands in a hole.
fn read_hole<G: Grammar>(g: &G, inner: &Vec<char>, span: Span) -> (r: Result<TileHole, String>)
    ensures
        hole_outcome(r) == hole_of(*g, inner@, span),
{
    let text: Vec<char> = chars::trim_chars(inner);
    if text.len() == 0 {
        return Err("empty hole".to_owned());
    }
    let shown: String = chars::string_of(&text);
    let raw: bool = text[text.len() - 1] == '!';
    let body: Vec<char> = if raw {
        let b: Vec<char> = head_of(&text, text.len() - 1);
        assert(text@.take(text@.len() - 1) =~= text@.drop_last());
        b
    } else {
        chars::slice_chars(&text, 0, text.len())
    };
    assert(!raw ==> body@ =~= text@);
    let (body, format) = split_format(body);
    let (body, decl_type) = split_type(body);
    if body.len() == 0 {
        let mut m: String = "hole `".to_owned();
        m.append(shown.as_str());
        m.append("` has no expression");
        return Err(m);
    }
    match g.parse_expression(chars::string_of(&body).as_str()) {
        Err(e) => Err(say_hole_fault(shown.as_str(), &body, e.as_str())),
        Ok(x) => Ok(
            TileHole {
                text: shown,
                expr: x.expr,
                decl_type: maybe_string(decl_type),
                format: maybe_string(format),
                raw,
                span,
            },
        ),
    }
}

/// The end of the word characters from `i` on.
pub(crate) fn find_word_end(s: &Vec<char>, i: usize) -> (r: usize)
    requires
        i <= s@.len(),
    ensures
        i <= r <= s@.len(),
        r == word_end(s@, i as int),
{
    let mut k: usize = i;
    while k < s.len() && chars::word(s[k])
        invariant
            i <= k <= s@.len(),
            word_end(s@, i as int) == word_end(s@, k as int),
        decreases s.len() - k,
    {
        k = k + 1;
    }
    k
}

/// The length of a name in braces at `pos`, if one stands there.
fn placeholder_len(s: &Vec<char>, pos: usize) -> (r: Option<usize>)
    requires
        pos < s@.len(),
    ensures
        match r {
            Some(n) => placeholder_size(s@, pos as int) == Some(n as int) && n >= 1 && pos + n
                <= s@.len(),
            None => placeholder_size(s@, pos as int) is None,
        },
{
    let n: usize = s.len();
    if n - pos < 2 {
        return None;
    }
    if !(chars::alpha(s[pos + 1]) || s[pos + 1] == '_') {
        return None;
    }
    let end: usize = find_word_end(s, pos + 1);
    if end < n && s[end] == '}' {
        Some(end - pos + 1)
    } else {
        None
    }
}

/// Whether `c` joins a placeholder to a header.
fn is_header_mark(c: char) -> (r: bool)
    ensures
        r == header_mark(c),
{
    chars::one_of(c, "<>=!+-*/%.,()[]&|?:")
}

/// Whether a brace at `pos` is that of a placeholder in a header.
fn is_joined(text: &Vec<char>, opts: &TileOptions, pos: usize, buf: &Vec<char>) -> (r: bool)
    requires
        pos < text@.len(),
    ensures
        r == joins(text@, opts@, pos as int, buf@),
{
    let n: usize = text.len();
    match placeholder_len(text, pos) {
        None => false,
        Some(k) => {
            let before: bool = buf.len() > 0 && is_header_mark(buf[buf.len() - 1]);
            let after: bool = pos + k < n && is_header_mark(text[pos + k]);
            if before || after {
                return true;
            }
            let tail: Vec<char> = chars::slice_chars(text, pos + k, n);
            assert(tail@ =~= text@.skip(pos + k));
            let rest: Vec<char> = chars::trim_start_chars(&tail);
            if rest.len() == 0 {
                return false;
            }
            if stands(&rest, 0, opts.sigil.as_str()) || stands(&rest, 0, opts.open.as_str()) {
                return false;
            }
            is_header_mark(rest[0]) && !chars::one_of(rest[0], "()[]")
        },
    }
}

/// The text with every escaped quote as a quote.
fn unescape(s: &Vec<char>) -> (r: Vec<char>)
    ensures
        r@ == unescaped(s@),
{
    let mut out: Vec<char> = Vec::new();
    let mut i: usize = 0;
    assert(s@.skip(0) =~= s@);
    assert(out@ + unescaped(s@.skip(0)) =~= unescaped(s@));
    while i < s.len()
        invariant
            i <= s@.len(),
            unescaped(s@) == out@ + unescaped(s@.skip(i as int)),
        decreases s.len() - i,
    {
        let ghost rest = s@.skip(i as int);
        let ghost before = out@;
        assert(rest[0] == s@[i as int]);
        if s[i] == '\\' && s.len() - i > 1 && s[i + 1] == '"' {
            assert(rest[1] == s@[i + 1]);
            assert(rest.skip(2) =~= s@.skip(i + 2));
            out.push('"');
            assert(before + (seq!['"'] + unescaped(s@.skip(i + 2))) =~= out@ + unescaped(
                s@.skip(i + 2),
            ));
            i = i + 2;
        } else {
            assert(rest.drop_first() =~= s@.skip(i + 1));
            out.push(s[i]);
            assert(before + (seq![s@[i as int]] + unescaped(s@.skip(i + 1))) =~= out@ + unescaped(
                s@.skip(i + 1),
            ));
            i = i + 1;
        }
    }
    assert(s@.skip(i as int) =~= Seq::<char>::empty());
    assert(out@ + unescaped(s@.skip(i as int)) =~= out@);
    out
}

/// The last place of a quote.
fn find_last_quote(s: &Vec<char>) -> (r: Option<usize>)
    ensures
        match r {
            Some(i) => i < s@.len() && last_quote(s@) == Some(i as int),
            None => last_quote(s@) is None,
        },
{
    let mut i: usize = s.len();
    assert(s@.take(i as int) =~= s@);
    while i > 0
        invariant
            i <= s@.len(),
            last_quote(s@) == last_quote(s@.take(i as int)),
        decreases i,
    {
        assert(s@.take(i as int).drop_last() =~= s@.take(i - 1));
        assert(s@.take(i as int).last() == s@[i - 1]);
        if s[i - 1] == '"' {
            return Some(i - 1);
        }
        i = i - 1;
    }
    None
}

/// A header without the separator at its end, and the separator.
fn split_sep(h: &Vec<char>) -> (r: (Vec<char>, Option<Vec<char>>))
    ensures
        (r.0@, maybe_chars(r.1)) == sep_split(h@),
{
    let t: Vec<char> = chars::trim_end_chars(&unescape(h));
    if t.len() == 0 || t[t.len() - 1] != '"' {
        return (t, None);
    }
    let q: Vec<char> = chars::slice_chars(&t, 0, t.len() - 1);
    assert(q@ =~= t@.drop_last());
    match find_last_quote(&q) {
        Some(i) => {
            let left: Vec<char> = chars::slice_chars(&q, 0, i);
            assert(left@ =~= q@.take(i as int));
            let head: Vec<char> = chars::trim_end_chars(&left);
            let word: Vec<char> = chars::chars_of(" sep");
            proof {
                reveal_strlit(" sep");
            }
            if head.len() >= word.len() && chars::has_at(&head, head.len() - word.len(), &word) {
                let cut: Vec<char> = chars::slice_chars(&head, 0, head.len() - 3);
                assert(cut@ =~= head@.take(head@.len() - 3));
                let sep: Vec<char> = chars::slice_chars(&q, i + 1, q.len());
                assert(sep@ =~= q@.skip(i + 1));
                (chars::trim_end_chars(&cut), Some(sep))
            } else {
                (t, None)
            }
        },
        None => (t, None),
    }
}

/// The place after the white space from `pos` on.
fn skip_ws(text: &Vec<char>, pos: usize) -> (r: usize)
    requires
        pos <= text@.len(),
    ensures
        pos <= r <= text@.len(),
        r == after_space(text@, pos as int),
{
    let mut i: usize = pos;
    while i < text.len() && chars::space(text[i])
        invariant
            pos <= i <= text@.len(),
            after_space(text@, pos as int) == after_space(text@, i as int),
        decreases text.len() - i,
    {
        i = i + 1;
    }
    i
}

/// A body without the white space at its ends.
fn trim_block(body: Vec<TilePiece>) -> (r: Vec<TilePiece>)
    ensures
        template::piece_views(r@) == trimmed_body(template::piece_views(body@)),
{
    let n: usize = body.len();
    let ghost all = template::piece_views(body@);
    let ghost a = if all.len() > 0 && all[0] is Static {
        all.update(0, PieceV::Static(chars::trim_start(all[0]->Static_0)))
    } else {
        all
    };
    let ghost b = if a.len() > 0 && a.last() is Static {
        a.update(a.len() - 1, PieceV::Static(chars::trim_end(a.last()->Static_0)))
    } else {
        a
    };
    let ghost keep = |p: PieceV| !(p is Static && p->Static_0.len() == 0);
    let mut rest: Vec<TilePiece> = body;
    let mut out: Vec<TilePiece> = Vec::new();
    let mut i: usize = 0;
    proof {
        template::lemma_piece_views(body@);
        reveal(Seq::filter);
        assert(template::piece_views(out@) =~= b.take(0).filter(keep));
        assert(rest@ =~= body@.skip(0));
    }
    while rest.len() > 0
        invariant
            n == body@.len(),
            i <= n,
            rest@ == body@.skip(i as int),
            all == template::piece_views(body@),
            all.len() == n,
            forall|k: int| 0 <= k < n ==> #[trigger] all[k] == template::piece_view(body@[k]),
            a == if all.len() > 0 && all[0] is Static {
                all.update(0, PieceV::Static(chars::trim_start(all[0]->Static_0)))
            } else {
                all
            },
            b == if a.len() > 0 && a.last() is Static {
                a.update(a.len() - 1, PieceV::Static(chars::trim_end(a.last()->Static_0)))
            } else {
                a
            },
            keep == |p: PieceV| !(p is Static && p->Static_0.len() == 0),
            template::piece_views(out@) == b.take(i as int).filter(keep),
        decreases rest.len(),
    {
        let piece: TilePiece = rest.remove(0);
        let ghost shown = piece@;
        assert(shown == all[i as int]);
        assert(rest@ =~= body@.skip(i + 1));
        let next: TilePiece = match piece {
            TilePiece::Static(s) => {
                let mut t: Vec<char> = chars::chars_of(s.as_str());
                if i == 0 {
                    t = chars::trim_start_chars(&t);
                }
                if i + 1 == n {
                    t = chars::trim_end_chars(&t);
                }
                TilePiece::Static(chars::string_of(&t))
            },
            other => other,
        };
        let empty: bool = match &next {
            TilePiece::Static(s) => size(s.as_str()) == 0,
            _ => false,
        };
        proof {
            reveal(Seq::filter);
            assert(next@ == b[i as int]);
            assert(b.take(i + 1).drop_last() =~= b.take(i as int));
            assert(b.take(i + 1).last() == b[i as int]);
            assert(empty == !keep(b[i as int]));
        }
        let ghost before = out@;
        if !empty {
            let ghost last = next@;
            out.push(next);
            proof {
                template::lemma_piece_views(out@);
                template::lemma_piece_views(before);
                assert(template::piece_views(out@) =~= template::piece_views(before).push(last));
            }
        }
        i = i + 1;
    }
    assert(b.take(i as int) =~= b);
    out
}

/// The content of the outcome of a run of pieces.
pub open spec fn pieces_outcome(r: Result<Vec<TilePiece>, String>) -> Result<
    Seq<PieceV>,
    Seq<char>,
> {
    match r {
        Ok(v) => Ok(template::piece_views(v@)),
        Err(e) => Err(e@),
    }
}

/// The content of the outcome of a piece.
pub open spec fn piece_outcome(r: Result<TilePiece, String>) -> Result<PieceV, Seq<char>> {
    match r {
        Ok(p) => Ok(p@),
        Err(e) => Err(e@),
    }
}

/// The content of the outcome of a header.
pub open spec fn header_outcome(r: Result<Vec<char>, String>) -> Result<Seq<char>, Seq<char>> {
    match r {
        Ok(v) => Ok(v@),
        Err(e) => Err(e@),
    }
}

/// Adds the text that was gathered to `out`, where it is not empty.
fn flush(buf: &Vec<char>, out: &mut Vec<TilePiece>)
    ensures
        template::piece_views(final(out)@) == flushed(template::piece_views(old(out)@), buf@),
{
    let ghost before = out@;
    if buf.len() > 0 {
        out.push(TilePiece::Static(chars::string_of(buf)));
        proof {
            template::lemma_piece_views(out@);
            template::lemma_piece_views(before);
            assert(template::piece_views(out@) =~= template::piece_views(before).push(
                PieceV::Static(buf@),
            ));
        }
    }
}

/// Adds a piece to `out`.
pub(crate) fn push_piece(out: &mut Vec<TilePiece>, piece: TilePiece)
    ensures
        template::piece_views(final(out)@) == template::piece_views(old(out)@).push(piece@),
{
    let ghost before = out@;
    let ghost shown = piece@;
    out.push(piece);
    proof {
        template::lemma_piece_views(out@);
        template::lemma_piece_views(before);
        assert(template::piece_views(out@) =~= template::piece_views(before).push(shown));
    }
}

/// The reading of one template.
struct TemplateParser<'a, G: Grammar> {
    grammar: &'a G,
    chars: &'a Vec<char>,
    opts: &'a TileOptions,
    span: Span,
}

impl<'a, G: Grammar> TemplateParser<'a, G> {
    /// The message `msg` with its place.
    fn err(&self, pos: usize, msg: &str) -> (r: String)
        ensures
            r@ == message(self.span, pos as int, msg@),
    {
        build_message(self.span, pos, msg)
    }

    /// Whether a directive of the name `word` begins at `pos`.
    fn has_directive(&self, pos: usize, word: &str) -> (r: bool)
        requires
            pos <= self.chars@.len(),
        ensures
            r == directive_at(self.chars@, self.opts@, pos as int, word@),
    {
        assert(self.chars@.len() == self.chars.len());
        if !stands(self.chars, pos, self.opts.sigil.as_str()) {
            return false;
        }
        let p: usize = pos + size(self.opts.sigil.as_str());
        if !stands(self.chars, p, word) {
            return false;
        }
        let q: usize = p + size(word);
        q < self.chars.len() && chars::space(self.chars[q])
    }

    /// Reads pieces from `start` on.
    #[verifier::rlimit(60)]
    fn pieces(&self, in_block: bool, start: usize) -> (r: (usize, Result<Vec<TilePiece>, String>))
        requires
            start <= self.chars@.len(),
            self.opts@.open.len() > 0,
        ensures
            start <= r.0 <= self.chars@.len(),
            (r.0 as int, pieces_outcome(r.1)) == pieces(
                *self.grammar,
                self.chars@,
                self.opts@,
                self.span,
                in_block,
                start as int,
                0,
                Seq::empty(),
                Seq::empty(),
            ),
        decreases self.chars@.len() - start, 2nat,
    {
        let ghost s = self.chars@;
        let ghost o = self.opts@;
        let ghost goal = pieces(
            *self.grammar,
            s,
            o,
            self.span,
            in_block,
            start as int,
            0,
            Seq::empty(),
            Seq::empty(),
        );
        let open: &str = self.opts.open.as_str();
        let mut doubled: String = self.opts.open.clone();
        doubled.append(open);
        let mut out: Vec<TilePiece> = Vec::new();
        let mut buf: Vec<char> = Vec::new();
        let mut depth: i128 = 0;
        let mut pos: usize = start;
        assert(template::piece_views(out@) =~= Seq::<PieceV>::empty());
        while pos < self.chars.len()
            invariant
                start <= pos <= s.len(),
                s == self.chars@,
                o == self.opts@,
                open@ == o.open,
                doubled@ == o.open + o.open,
                o.open.len() > 0,
                -(pos as int) <= depth <= pos,
                goal == pieces(
                    *self.grammar,
                    s,
                    o,
                    self.span,
                    in_block,
                    start as int,
                    0,
                    Seq::empty(),
                    Seq::empty(),
                ),
                goal == pieces(
                    *self.grammar,
                    s,
                    o,
                    self.span,
                    in_block,
                    pos as int,
                    depth as int,
                    buf@,
                    template::piece_views(out@),
                ),
            ensures
                start <= pos <= s.len(),
                goal == (
                    pos as int,
                    Ok::<Seq<PieceV>, Seq<char>>(
                        flushed(template::piece_views(out@), buf@),
                    ),
                ),
            decreases self.chars.len() - pos,
        {
            if stands(self.chars, pos, doubled.as_str()) {
                chars::extend_chars(&mut buf, open);
                pos = pos + size(doubled.as_str());
                continue;
            }
            if stands(self.chars, pos, open) {
                flush(&buf, &mut out);
                let (p, h) = self.hole(pos);
                match h {
                    Err(e) => {
                        return (p, Err(e));
                    },
                    Ok(h) => {
                        push_piece(&mut out, TilePiece::Hole(h));
                    },
                }
                buf = Vec::new();
                assert(buf@ =~= Seq::<char>::empty());
                pos = p;
                continue;
            }
            if self.has_directive(pos, "for") {
                flush(&buf, &mut out);
                let (p, x) = self.projection(pos);
                match x {
                    Err(e) => {
                        return (p, Err(e));
                    },
                    Ok(x) => {
                        push_piece(&mut out, x);
                    },
                }
                buf = Vec::new();
                assert(buf@ =~= Seq::<char>::empty());
                pos = p;
                continue;
            }
            if self.has_directive(pos, "if") {
                flush(&buf, &mut out);
                let (p, x) = self.branch(pos);
                match x {
                    Err(e) => {
                        return (p, Err(e));
                    },
                    Ok(x) => {
                        push_piece(&mut out, x);
                    },
                }
                buf = Vec::new();
                assert(buf@ =~= Seq::<char>::empty());
                pos = p;
                continue;
            }
            let c: char = self.chars[pos];
            if c == '}' && in_block && depth == 0 {
                break;
            }
            if c == '{' {
                depth = depth + 1;
            } else if c == '}' {
                depth = depth - 1;
            }
            buf.push(c);
            pos = pos + 1;
        }
        flush(&buf, &mut out);
        (pos, Ok(out))
    }

    /// Reads a hole at `pos`.
    fn hole(&self, pos: usize) -> (r: (usize, Result<TileHole, String>))
        requires
            chars::stands_at(self.chars@, pos as int, self.opts@.open),
            self.opts@.open.len() > 0,
        ensures
            pos < r.0 <= self.chars@.len(),
            (r.0 as int, hole_outcome(r.1)) == hole_at(
                *self.grammar,
                self.chars@,
                self.opts@,
                self.span,
                pos as int,
            ),
    {
        assert(self.chars@.len() == self.chars.len());
        let from: usize = pos + size(self.opts.open.as_str());
        let (p, inner) = until_close(self.chars, self.opts.close.as_str(), from);
        match inner {
            None => {
                let mut m: String = "unterminated hole; expected `".to_owned();
                m.append(self.opts.close.as_str());
                m.append("`");
                (p, Err(self.err(p, m.as_str())))
            },
            Some(t) => match read_hole(self.grammar, &t, self.span) {
                Err(e) => (p, Err(self.err(p, e.as_str()))),
                Ok(h) => (p, Ok(h)),
            },
        }
    }

    /// Reads the header of a directive from `start` on.
    fn header_until_brace(&self, start: usize) -> (r: (usize, Result<Vec<char>, String>))
        requires
            start <= self.chars@.len(),
        ensures
            start <= r.0 <= self.chars@.len(),
            (r.0 as int, header_outcome(r.1)) == header(
                self.chars@,
                self.opts@,
                self.span,
                start as int,
                0,
                None,
                Seq::empty(),
            ),
    {
        let ghost s = self.chars@;
        let ghost o = self.opts@;
        let ghost goal = header(s, o, self.span, start as int, 0, None, Seq::empty());
        let open: Vec<char> = chars::chars_of(self.opts.open.as_str());
        let braced: bool = open.len() > 0 && open[0] == '{';
        let mut pos: usize = start;
        let mut depth: i128 = 0;
        let mut quote: Option<char> = None;
        let mut buf: Vec<char> = Vec::new();
        while pos < self.chars.len()
            invariant
                start <= pos <= s.len(),
                s == self.chars@,
                o == self.opts@,
                open@ == o.open,
                braced == (o.open.len() > 0 && o.open[0] == '{'),
                -(pos as int) <= depth <= pos,
                goal == header(s, o, self.span, start as int, 0, None, Seq::empty()),
                goal == header(s, o, self.span, pos as int, depth as int, quote, buf@),
            decreases self.chars.len() - pos,
        {
            let c: char = self.chars[pos];
            match quote {
                Some(q) => {
                    if c == q {
                        quote = None;
                    }
                },
                None => {
                    if depth == 0 && !braced && chars::has_at(self.chars, pos, &open) {
                        return (
                            pos,
                            Err(
                                self.err(
                                    pos,
                                    "directive has no `{` block; a hole cannot appear in a directive header",
                                ),
                            ),
                        );
                    }
                    if depth == 0 && c == '{' && !is_joined(self.chars, self.opts, pos, &buf) {
                        return (pos, Ok(buf));
                    }
                    if c == '"' || c == '\'' {
                        quote = Some(c);
                    } else if c == '(' || c == '[' {
                        depth = depth + 1;
                    } else if c == ')' || c == ']' {
                        depth = depth - 1;
                    }
                },
            }
            buf.push(c);
            pos = pos + 1;
        }
        (pos, Err(self.err(pos, "directive has no `{` block")))
    }

    /// Reads a body at `pos`.
    fn block(&self, pos: usize) -> (r: (usize, Result<Vec<TilePiece>, String>))
        requires
            pos <= self.chars@.len(),
            self.opts@.open.len() > 0,
        ensures
            pos <= r.0 <= self.chars@.len(),
            r.1 is Ok ==> pos < r.0,
            (r.0 as int, pieces_outcome(r.1)) == block(
                *self.grammar,
                self.chars@,
                self.opts@,
                self.span,
                pos as int,
            ),
        decreases self.chars@.len() - pos, 0nat,
    {
        if pos >= self.chars.len() || self.chars[pos] != '{' {
            return (pos, Err(self.err(pos, "expected `{`")));
        }
        let (p, r) = self.pieces(true, pos + 1);
        match r {
            Err(e) => (p, Err(e)),
            Ok(body) => {
                if p >= self.chars.len() || self.chars[p] != '}' {
                    return (p, Err(self.err(p, "unterminated block; expected `}`")));
                }
                (p + 1, Ok(trim_block(body)))
            },
        }
    }

    /// Reads a projection at `pos`.
    fn projection(&self, pos: usize) -> (r: (usize, Result<TilePiece, String>))
        requires
            directive_at(self.chars@, self.opts@, pos as int, "for"@),
            self.opts@.open.len() > 0,
        ensures
            pos <= r.0 <= self.chars@.len(),
            r.1 is Ok ==> pos < r.0,
            (r.0 as int, piece_outcome(r.1)) == projection(
                *self.grammar,
                self.chars@,
                self.opts@,
                self.span,
                pos as int,
            ),
        decreases self.chars@.len() - pos, 1nat,
    {
        assert(self.chars@.len() == self.chars.len());
        proof {
            reveal_strlit("for");
        }
        let from: usize = pos + size(self.opts.sigil.as_str()) + 3;
        let (p, h) = self.header_until_brace(from);
        let head: Vec<char> = match h {
            Err(e) => {
                return (p, Err(e));
            },
            Ok(h) => h,
        };
        let (text, sep) = split_sep(&head);
        let trimmed: String = chars::string_of(&chars::trim_chars(&text));
        let source: ForSource = match self.grammar.for_source_from_text(trimmed.as_str()) {
            Err(e) => {
                let mut m: String = "projection: ".to_owned();
                m.append(e.as_str());
                return (p, Err(self.err(p, m.as_str())));
            },
            Ok(x) => x,
        };
        let (p2, body) = self.block(p);
        match body {
            Err(e) => (p2, Err(e)),
            Ok(body) => (
                p2,
                Ok(
                    TilePiece::Projection {
                        source,
                        sep: maybe_string(sep),
                        body,
                        span: self.span,
                    },
                ),
            ),
        }
    }

    /// Reads a branch at `pos`.
    fn branch(&self, pos: usize) -> (r: (usize, Result<TilePiece, String>))
        requires
            directive_at(self.chars@, self.opts@, pos as int, "if"@),
            self.opts@.open.len() > 0,
        ensures
            pos <= r.0 <= self.chars@.len(),
            r.1 is Ok ==> pos < r.0,
            (r.0 as int, piece_outcome(r.1)) == branch(
                *self.grammar,
                self.chars@,
                self.opts@,
                self.span,
                pos as int,
            ),
        decreases self.chars@.len() - pos, 1nat,
    {
        assert(self.chars@.len() == self.chars.len());
        proof {
            reveal_strlit("if");
        }
        let from: usize = pos + size(self.opts.sigil.as_str()) + 2;
        let (p, h) = self.header_until_brace(from);
        let head: Vec<char> = match h {
            Err(e) => {
                return (p, Err(e));
            },
            Ok(h) => h,
        };
        let shown: String = chars::string_of(&chars::trim_chars(&head));
        let cond: Reading = match self.grammar.parse_expression(shown.as_str()) {
            Err(e) => {
                let mut m: String = "branch condition `".to_owned();
                m.append(shown.as_str());
                m.append("`: ");
                m.append(e.as_str());
                return (p, Err(self.err(p, m.as_str())));
            },
            Ok(x) => x,
        };
        let (p2, yes) = self.block(p);
        let yes: Vec<TilePiece> = match yes {
            Err(e) => {
                return (p2, Err(e));
            },
            Ok(v) => v,
        };
        let q: usize = skip_ws(self.chars, p2);
        let mut other: String = self.opts.sigil.clone();
        other.append("else");
        if !stands(self.chars, q, other.as_str()) {
            return (
                p2,
                Ok(TilePiece::Branch { cond, then: yes, otherwise: None, span: self.span }),
            );
        }
        let q2: usize = skip_ws(self.chars, q + size(other.as_str()));
        let (p3, no) = self.block(q2);
        match no {
            Err(e) => (p3, Err(e)),
            Ok(no) => (
                p3,
                Ok(
                    TilePiece::Branch {
                        cond,
                        then: yes,
                        otherwise: Some(no),
                        span: self.span,
                    },
                ),
            ),
        }
    }
}

/// Reads the template `text`. A message gives `span` as its place.
pub fn parse_template<G: Grammar>(
    grammar: &G,
    text: &str,
    opts: &TileOptions,
    span: Span,
) -> (r: Result<Vec<TilePiece>, String>)
    requires
        opts@.open.len() > 0,
    ensures
        pieces_outcome(r) == template_of(*grammar, text@, opts@, span),
{
    let text: Vec<char> = chars::chars_of(text);
    let p: TemplateParser<G> = TemplateParser { grammar, chars: &text, opts, span };
    let (pos, r) = p.pieces(false, 0);
    match r {
        Err(e) => Err(e),
        Ok(out) => if pos < text.len() {
            Err(p.err(pos, "unexpected `}` closing a block that was never opened"))
        } else {
            Ok(out)
        },
    }
}

// ---------------------------------------------------------------------
// Printing
// ---------------------------------------------------------------------

/// The text with what opens a hole written twice.
pub open spec fn escaped(s: Seq<char>, open: Seq<char>) -> Seq<char>
    decreases s.len(),
{
    if open.len() == 0 || s.len() == 0 {
        s
    } else if chars::stands_at(s, 0, open) {
        open + open + escaped(s.skip(open.len() as int), open)
    } else {
        seq![s[0]] + escaped(s.skip(1), open)
    }
}

/// How a piece is written.
pub open spec fn rendered_piece(p: PieceV, o: OptionsV) -> Seq<char>
    decreases p, 0nat,
{
    match p {
        PieceV::Static(s) => escaped(s, o.open),
        PieceV::Hole(h) => o.open + h.text + o.close,
        PieceV::Projection(source, sep, body, span) => o.sigil + "for "@ + source.text + (match sep {
            Some(t) => " sep \""@ + t + "\""@,
            None => Seq::empty(),
        }) + " { "@ + rendered(body, o) + " }"@,
        PieceV::Branch(cond, yes, otherwise, span) => {
            let first = o.sigil + "if "@ + cond.shown + " { "@ + rendered(yes, o) + " }"@;
            match otherwise {
                Some(no) => first + " "@ + o.sigil + "else { "@ + rendered(no, o) + " }"@,
                None => first,
            }
        },
    }
}

/// How a run of pieces is written.
pub open spec fn rendered(s: Seq<PieceV>, o: OptionsV) -> Seq<char>
    decreases s, s.len(),
{
    if s.len() == 0 {
        Seq::empty()
    } else {
        rendered(s.drop_last(), o) + rendered_piece(s.last(), o)
    }
}

/// Writes what opens a hole twice wherever it stands in `s`.
pub(crate) fn escape(s: &str, open: &str) -> (r: String)
    ensures
        r@ == escaped(s@, open@),
{
    let opener: Vec<char> = chars::chars_of(open);
    let text: Vec<char> = chars::chars_of(s);
    if opener.len() == 0 {
        return s.to_owned();
    }
    let mut out: Vec<char> = Vec::new();
    let mut i: usize = 0;
    assert(text@.skip(0) =~= text@);
    assert(out@ + escaped(text@.skip(0), open@) =~= escaped(text@, open@));
    while i < text.len()
        invariant
            i <= text@.len(),
            opener@ == open@,
            open@.len() > 0,
            escaped(text@, open@) == out@ + escaped(text@.skip(i as int), open@),
        decreases text.len() - i,
    {
        let ghost rest = text@.skip(i as int);
        let ghost before = out@;
        if chars::has_at(&text, i, &opener) {
            assert(rest.subrange(0, open@.len() as int) =~= text@.subrange(
                i as int,
                i + open@.len(),
            ));
            assert(rest.skip(open@.len() as int) =~= text@.skip(i + open@.len()));
            chars::extend_chars(&mut out, open);
            chars::extend_chars(&mut out, open);
            i = i + opener.len();
            assert(before + (open@ + open@ + escaped(text@.skip(i as int), open@)) =~= out@
                + escaped(text@.skip(i as int), open@));
        } else {
            assert(rest.len() >= open@.len() ==> rest.subrange(0, open@.len() as int)
                =~= text@.subrange(i as int, i + open@.len()));
            assert(rest.skip(1) =~= text@.skip(i + 1));
            out.push(text[i]);
            i = i + 1;
            assert(before + (seq![rest[0]] + escaped(text@.skip(i as int), open@)) =~= out@
                + escaped(text@.skip(i as int), open@));
        }
    }
    assert(text@.skip(i as int) =~= Seq::<char>::empty());
    assert(out@ + escaped(text@.skip(i as int), open@) =~= out@);
    chars::string_of(&out)
}

/// How a piece is written.
pub(crate) fn render_piece(piece: &TilePiece, opts: &TileOptions) -> (r: String)
    ensures
        r@ == rendered_piece(piece@, opts@),
    decreases piece, 0nat,
{
    match piece {
        TilePiece::Static(s) => escape(s.as_str(), opts.open.as_str()),
        TilePiece::Hole(h) => {
            let mut out: String = opts.open.clone();
            out.append(h.text.as_str());
            out.append(opts.close.as_str());
            out
        },
        TilePiece::Projection { source, sep, body, span } => {
            let mut out: String = opts.sigil.clone();
            out.append("for ");
            out.append(source.text.as_str());
            match sep {
                Some(t) => {
                    let mut mark: String = " sep \"".to_owned();
                    mark.append(t.as_str());
                    mark.append("\"");
                    out.append(mark.as_str());
                },
                None => {
                    assert(out@ + Seq::<char>::empty() =~= out@);
                },
            }
            out.append(" { ");
            assert(decreases_to!(*piece => *body));
            let inner: String = render_template(body, opts);
            out.append(inner.as_str());
            out.append(" }");
            out
        },
        TilePiece::Branch { cond, then: yes, otherwise, span } => {
            let mut out: String = opts.sigil.clone();
            out.append("if ");
            out.append(cond.shown.as_str());
            out.append(" { ");
            let inner: String = render_template(yes, opts);
            out.append(inner.as_str());
            out.append(" }");
            match otherwise {
                Some(no) => {
                    out.append(" ");
                    out.append(opts.sigil.as_str());
                    out.append("else { ");
                    let last: String = render_template(no, opts);
                    out.append(last.as_str());
                    out.append(" }");
                },
                None => {},
            }
            out
        },
    }
}

/// How a template is written: what [`parse_template`] reads.
pub fn render_template(pieces: &Vec<TilePiece>, opts: &TileOptions) -> (r: String)
    ensures
        r@ == rendered(template::piece_views(pieces@), opts@),
    decreases pieces, 1nat,
{
    let ghost all = template::piece_views(pieces@);
    let mut out: String = "".to_owned();
    let mut i: usize = 0;
    proof {
        template::lemma_piece_views(pieces@);
        reveal_strlit("");
        assert(out@ =~= Seq::<char>::empty());
        assert(all.take(0) =~= Seq::<PieceV>::empty());
    }
    while i < pieces.len()
        invariant
            i <= pieces@.len(),
            all.len() == pieces@.len(),
            all == template::piece_views(pieces@),
            out@ == rendered(all.take(i as int), opts@),
        decreases pieces.len() - i,
    {
        assert(decreases_to!(pieces@ => pieces@[i as int]));
        assert(decreases_to!(*pieces => pieces@));
        let part: String = render_piece(&pieces[i], opts);
        out.append(part.as_str());
        proof {
            template::lemma_piece_views(pieces@);
            assert(all.take(i + 1).drop_last() =~= all.take(i as int));
            assert(all.take(i + 1).last() == pieces@[i as int]@);
        }
        i = i + 1;
    }
    assert(all.take(i as int) =~= all);
    out
}

} // verus!
