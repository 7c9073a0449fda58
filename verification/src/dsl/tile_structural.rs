//! Templates that a host holds: as text, as JSON text, or as a JSON
//! document it has already read.
//!
//! A document is written as the template text that an author would have
//! written for it: a string becomes a value, a string with holes or a plain
//! string, and an array or an object whose first string or whose key is a
//! directive becomes a block. The text is then read as any template.
use crate::chars;
use crate::document;
use crate::dsl::ast::Span;
use crate::dsl::template;
use crate::dsl::template::{
    OptionsV, PieceV, TileBodyKind, TileDef, TileDefV, TileHole, TileOptions, TilePiece,
};
use crate::dsl::tile;
use crate::dsl::tile::{parse_template, Grammar};
use crate::value;
use crate::value::{Json, JsonV};
use vstd::prelude::*;

verus! {

/// The encodings that a template may have.
pub open spec fn encodings() -> Seq<Seq<char>> {
    seq!["json"@, "text"@, "csv"@]
}

/// What is wrong with an encoding that is none of them.
pub open spec fn encoding_fault(name: Seq<char>, encoding: Seq<char>) -> Seq<char> {
    "tile '"@ + name + "': unknown encoding '"@ + encoding + "'; encodings are json, text, csv"@
}

/// The message `e` of the template `name`.
pub open spec fn told(name: Seq<char>, e: Seq<char>) -> Seq<char> {
    "tile '"@ + name + "': "@ + e
}

/// The content of an outcome.
pub open spec fn text_outcome(r: Result<String, String>) -> Result<Seq<char>, Seq<char>> {
    match r {
        Ok(s) => Ok(s@),
        Err(e) => Err(e@),
    }
}

/// The content of the outcome of a template.
pub open spec fn tile_outcome(r: Result<TileDef, String>) -> Result<TileDefV, Seq<char>> {
    match r {
        Ok(t) => Ok(t@),
        Err(e) => Err(e@),
    }
}

// ---------------------------------------------------------------------
// The text of a document
// ---------------------------------------------------------------------

/// What a directive string says.
#[verifier::ext_equal]
pub enum DirectiveV {
    For(Seq<char>),
    If(Seq<char>),
    Else,
}

/// Whether `word` and a space lead `s`.
pub open spec fn led_by(s: Seq<char>, word: Seq<char>) -> bool {
    chars::stands_at(s, 0, word) && s.len() > word.len() && chars::is_space(
        s[word.len() as int],
    )
}

/// The directive that a string is, if it is one.
pub open spec fn directive(s: Seq<char>, o: OptionsV) -> Option<DirectiveV> {
    let t = chars::trim(s);
    if !chars::stands_at(t, 0, o.sigil) {
        None
    } else {
        let rest = t.skip(o.sigil.len() as int);
        if led_by(rest, "for"@) {
            Some(DirectiveV::For(chars::trim(rest.skip(3))))
        } else if led_by(rest, "if"@) {
            Some(DirectiveV::If(chars::trim(rest.skip(2))))
        } else if rest == "else"@ {
            Some(DirectiveV::Else)
        } else {
            None
        }
    }
}

/// Whether a run of pieces holds a directive.
pub open spec fn holds_directive(ps: Seq<PieceV>) -> bool {
    exists|i: int|
        0 <= i < ps.len() && ((#[trigger] ps[i]) is Projection || ps[i] is Branch)
}

/// What stands between the quotes for a run of texts and holes.
pub open spec fn quoted_pieces(ps: Seq<PieceV>, o: OptionsV) -> Seq<char>
    decreases ps.len(),
{
    if ps.len() == 0 {
        Seq::empty()
    } else {
        quoted_pieces(ps.drop_last(), o) + (match ps.last() {
            PieceV::Static(t) => tile::escaped(document::json_chars(t), o.open),
            PieceV::Hole(h) => o.open + h.text + o.close,
            _ => Seq::empty(),
        })
    }
}

/// Whether a run of pieces is one hole whose value is not put as a string.
pub open spec fn value_hole(ps: Seq<PieceV>) -> bool {
    ps.len() == 1 && (ps[0] matches PieceV::Hole(h) && h.decl_type != Some("str"@))
}

/// The text of a string, of a key where `key` holds.
pub open spec fn string_text<G: Grammar>(g: G, s: Seq<char>, key: bool, o: OptionsV) -> Result<
    Seq<char>,
    Seq<char>,
> {
    if directive(s, o) is Some {
        Err(
            "directive string `"@ + s + "` outside a directive position; a `"@ + o.sigil
                + "for` or `"@ + o.sigil + "if` string leads an array, or is an object key"@,
        )
    } else {
        match tile::template_of(g, s, o, crate::dsl::ast::nowhere()) {
            Err(e) => Err("in string `"@ + s + "`: "@ + e),
            Ok(ps) => if holds_directive(ps) {
                Err(
                    "string `"@ + s
                        + "` contains a directive; in the structural form directives are arrays and object keys"@,
                )
            } else if !key && value_hole(ps) {
                Ok(o.open + ps[0]->Hole_0.text + o.close)
            } else {
                Ok("\""@ + quoted_pieces(ps, o) + "\""@)
            },
        }
    }
}

/// The directive that a document is, if it is the string of one.
pub open spec fn item_directive(v: JsonV, o: OptionsV) -> Option<DirectiveV> {
    match v {
        JsonV::Text(s) => directive(s, o),
        _ => None,
    }
}

/// The place of the first `else` from `i` on, the end where there is none.
pub open spec fn else_place(items: Seq<JsonV>, o: OptionsV, i: int) -> int
    decreases items.len() - i,
{
    if i >= items.len() || item_directive(items[i], o) == Some(DirectiveV::Else) {
        i
    } else {
        else_place(items, o, i + 1)
    }
}

/// The text of a document.
pub open spec fn value_text<G: Grammar>(g: G, v: JsonV, o: OptionsV) -> Result<
    Seq<char>,
    Seq<char>,
>
    decreases v, 0nat,
{
    match v {
        JsonV::Null => Ok("null"@),
        JsonV::Bool(b) => Ok(
            if b {
                "true"@
            } else {
                "false"@
            },
        ),
        JsonV::Number(t) => Ok(t),
        JsonV::Text(s) => string_text(g, s, false, o),
        JsonV::Array(items) => match array_body(g, items, o) {
            Err(e) => Err(e),
            Ok(b) => Ok("["@ + b + "]"@),
        },
        JsonV::Object(members) => match object_from(g, members, o, 0, false, Seq::empty()) {
            Err(e) => Err(e),
            Ok(b) => Ok("{"@ + b + "}"@),
        },
    }
}

/// The text between the brackets of an array.
pub open spec fn array_body<G: Grammar>(g: G, items: Seq<JsonV>, o: OptionsV) -> Result<
    Seq<char>,
    Seq<char>,
>
    decreases items, 2nat,
{
    if items.len() == 0 {
        Ok(Seq::empty())
    } else {
        match item_directive(items[0], o) {
            Some(DirectiveV::For(header)) => match items_text(
                g,
                items.subrange(1, items.len() as int),
                o,
            ) {
                Err(e) => Err(e),
                Ok(b) => Ok(o.sigil + "for "@ + header + " { "@ + b + " }"@),
            },
            Some(DirectiveV::If(cond)) => {
                let k = else_place(items, o, 1);
                if 1 <= k <= items.len() {
                    match items_text(g, items.subrange(1, k), o) {
                        Err(e) => Err(e),
                        Ok(b) => {
                            let first = o.sigil + "if "@ + cond + " { "@ + b + " }"@;
                            if k == items.len() {
                                Ok(first)
                            } else {
                                match items_text(g, items.subrange(k + 1, items.len() as int), o) {
                                    Err(e) => Err(e),
                                    Ok(c) => Ok(first + " "@ + o.sigil + "else { "@ + c + " }"@),
                                }
                            }
                        },
                    }
                } else {
                    Ok(Seq::empty())
                }
            },
            Some(DirectiveV::Else) => Err(
                "`"@ + o.sigil + "else` without a leading `"@ + o.sigil + "if`"@,
            ),
            None => items_text(g, items, o),
        }
    }
}

/// The texts of a run of documents, with commas between.
pub open spec fn items_text<G: Grammar>(g: G, s: Seq<JsonV>, o: OptionsV) -> Result<
    Seq<char>,
    Seq<char>,
>
    decreases s, 1nat,
{
    if s.len() == 0 {
        Ok(Seq::empty())
    } else {
        match items_text(g, s.drop_last(), o) {
            Err(e) => Err(e),
            Ok(a) => match value_text(g, s.last(), o) {
                Err(e) => Err(e),
                Ok(b) => Ok(
                    if s.len() == 1 {
                        b
                    } else {
                        a + ", "@ + b
                    },
                ),
            },
        }
    }
}

/// The texts of a run of members, with commas between.
pub open spec fn run_text<G: Grammar>(g: G, s: Seq<(Seq<char>, JsonV)>, o: OptionsV) -> Result<
    Seq<char>,
    Seq<char>,
>
    decreases s, 1nat,
{
    if s.len() == 0 {
        Ok(Seq::empty())
    } else {
        match run_text(g, s.drop_last(), o) {
            Err(e) => Err(e),
            Ok(a) => match string_text(g, s.last().0, true, o) {
                Err(e) => Err(e),
                Ok(k) => match value_text(g, s.last().1, o) {
                    Err(e) => Err(e),
                    Ok(b) => Ok(
                        if s.len() == 1 {
                            k + ": "@ + b
                        } else {
                            a + ", "@ + k + ": "@ + b
                        },
                    ),
                },
            },
        }
    }
}

/// Where the comma of a directive among members goes.
#[derive(Clone, Copy, PartialEq, Eq, Structural)]
pub enum Comma {
    /// At the start of each body.
    Leading,
    /// At the end of each body.
    Trailing,
    /// Between the bodies.
    Sep,
}

/// The members of the document under a directive key.
pub open spec fn members_text<G: Grammar>(
    g: G,
    key: Seq<char>,
    v: JsonV,
    comma: Comma,
    o: OptionsV,
) -> Result<Seq<char>, Seq<char>>
    decreases v, 2nat,
{
    match v {
        JsonV::Object(members) => match run_text(g, members, o) {
            Err(e) => Err(e),
            Ok(b) => Ok(
                match comma {
                    Comma::Leading => ", "@ + b,
                    Comma::Trailing => b + ", "@,
                    Comma::Sep => b,
                },
            ),
        },
        _ => Err(
            "the value under directive key `"@ + key + "` must be an object of members"@,
        ),
    }
}

/// Whether a member from `i` on is no `else`.
pub open spec fn more_after(s: Seq<(Seq<char>, JsonV)>, o: OptionsV, i: int) -> bool {
    exists|j: int| i <= j < s.len() && directive((#[trigger] s[j]).0, o) != Some(DirectiveV::Else)
}

/// Where the comma of a directive goes: `before` says that a plain member
/// was written, `after` that a member follows.
pub open spec fn comma_of(before: bool, after: bool) -> Comma {
    if before {
        Comma::Leading
    } else if after {
        Comma::Trailing
    } else {
        Comma::Sep
    }
}

/// The text between the braces of an object, from member `i` on: `before`
/// says that a plain member was written, `out` is the text so far.
pub open spec fn object_from<G: Grammar>(
    g: G,
    s: Seq<(Seq<char>, JsonV)>,
    o: OptionsV,
    i: int,
    before: bool,
    out: Seq<char>,
) -> Result<Seq<char>, Seq<char>>
    decreases
            s,
            if 0 <= i < s.len() {
                (s.len() - i + 3) as nat
            } else {
                3nat
            },
{
    if i < 0 || i >= s.len() {
        Ok(out)
    } else {
        let (key, v) = s[i];
        let comma = comma_of(before, more_after(s, o, i + 1));
        proof {
            assert(decreases_to!(s => s[i]));
            assert(decreases_to!(s[i] => s[i].1));
        }
        match directive(key, o) {
            Some(DirectiveV::For(header)) => match members_text(g, key, v, comma, o) {
                Err(e) => Err(e),
                Ok(b) => object_from(
                    g,
                    s,
                    o,
                    i + 1,
                    before,
                    out + o.sigil + "for "@ + header + (if comma == Comma::Sep {
                        ""@
                    } else {
                        " sep \"\""@
                    }) + " { "@ + b + " }"@,
                ),
            },
            Some(DirectiveV::If(cond)) => match members_text(g, key, v, comma, o) {
                Err(e) => Err(e),
                Ok(b) => {
                    let first = out + o.sigil + "if "@ + cond + " { "@ + b + " }"@;
                    if i + 1 < s.len() && directive(s[i + 1].0, o) == Some(DirectiveV::Else) {
                        proof {
                            assert(decreases_to!(s => s[i + 1]));
                            assert(decreases_to!(s[i + 1] => s[i + 1].1));
                        }
                        match members_text(g, s[i + 1].0, s[i + 1].1, comma, o) {
                            Err(e) => Err(e),
                            Ok(c) => object_from(
                                g,
                                s,
                                o,
                                i + 2,
                                before,
                                first + " "@ + o.sigil + "else { "@ + c + " }"@,
                            ),
                        }
                    } else {
                        object_from(g, s, o, i + 1, before, first)
                    }
                },
            },
            Some(DirectiveV::Else) => Err(
                "`"@ + o.sigil + "else` key without a preceding `"@ + o.sigil + "if` key"@,
            ),
            None => match string_text(g, key, true, o) {
                Err(e) => Err(e),
                Ok(k) => match value_text(g, v, o) {
                    Err(e) => Err(e),
                    Ok(b) => object_from(
                        g,
                        s,
                        o,
                        i + 1,
                        true,
                        out + (if before {
                            ", "@
                        } else {
                            ""@
                        }) + k + ": "@ + b,
                    ),
                },
            },
        }
    }
}

/// The error of a run of documents is that of any longer run.
proof fn lemma_items_stop<G: Grammar>(g: G, s: Seq<JsonV>, o: OptionsV, k: int)
    requires
        0 <= k <= s.len(),
        items_text(g, s.take(k), o) is Err,
    ensures
        items_text(g, s, o) == items_text(g, s.take(k), o),
    decreases s.len(),
{
    if k == s.len() {
        assert(s.take(k) =~= s);
    } else {
        assert(s.drop_last().take(k) =~= s.take(k));
        lemma_items_stop(g, s.drop_last(), o, k);
    }
}

/// The error of a run of members is that of any longer run.
proof fn lemma_run_stop<G: Grammar>(g: G, s: Seq<(Seq<char>, JsonV)>, o: OptionsV, k: int)
    requires
        0 <= k <= s.len(),
        run_text(g, s.take(k), o) is Err,
    ensures
        run_text(g, s, o) == run_text(g, s.take(k), o),
    decreases s.len(),
{
    if k == s.len() {
        assert(s.take(k) =~= s);
    } else {
        assert(s.drop_last().take(k) =~= s.take(k));
        lemma_run_stop(g, s.drop_last(), o, k);
    }
}

/// What a directive string says.
pub enum Directive {
    For(String),
    If(String),
    Else,
}

impl View for Directive {
    type V = DirectiveV;

    open spec fn view(&self) -> DirectiveV {
        match self {
            Directive::For(h) => DirectiveV::For(h@),
            Directive::If(c) => DirectiveV::If(c@),
            Directive::Else => DirectiveV::Else,
        }
    }
}

/// The content of a directive that may be missing.
pub open spec fn maybe_directive(d: Option<Directive>) -> Option<DirectiveV> {
    match d {
        Some(x) => Some(x@),
        None => None,
    }
}

/// What `word` and a space lead, without the white space around it.
fn after_word(s: &Vec<char>, word: &str) -> (r: Option<String>)
    ensures
        match r {
            Some(t) => led_by(s@, word@) && t@ == chars::trim(s@.skip(word@.len() as int)),
            None => !led_by(s@, word@),
        },
{
    let n: usize = tile::size(word);
    if tile::stands(s, 0, word) && s.len() > n && chars::space(s[n]) {
        let tail: Vec<char> = chars::slice_chars(s, n, s.len());
        assert(tail@ =~= s@.skip(n as int));
        Some(chars::string_of(&chars::trim_chars(&tail)))
    } else {
        None
    }
}

/// The writing of one document.
struct Textualizer<'a, G: Grammar> {
    grammar: &'a G,
    opts: &'a TileOptions,
}

impl<'a, G: Grammar> Textualizer<'a, G> {
    /// The directive that a string is, if it is one.
    fn directive(&self, s: &str) -> (r: Option<Directive>)
        ensures
            maybe_directive(r) == directive(s@, self.opts@),
    {
        let t: Vec<char> = chars::trim_chars(&chars::chars_of(s));
        if !tile::stands(&t, 0, self.opts.sigil.as_str()) {
            return None;
        }
        let n: usize = tile::size(self.opts.sigil.as_str());
        let rest: Vec<char> = chars::slice_chars(&t, n, t.len());
        assert(rest@ =~= t@.skip(n as int));
        proof {
            reveal_strlit("for");
            reveal_strlit("if");
        }
        if let Some(h) = after_word(&rest, "for") {
            return Some(Directive::For(h));
        }
        if let Some(c) = after_word(&rest, "if") {
            return Some(Directive::If(c));
        }
        if *chars::string_of(&rest).as_str() == *"else" {
            Some(Directive::Else)
        } else {
            None
        }
    }

    /// Whether a string is `else`.
    fn is_else(&self, s: &str) -> (r: bool)
        ensures
            r == (directive(s@, self.opts@) == Some(DirectiveV::Else)),
    {
        match self.directive(s) {
            Some(Directive::Else) => true,
            _ => false,
        }
    }

    /// The text of a hole.
    fn hole(&self, h: &TileHole) -> (r: String)
        ensures
            r@ == self.opts@.open + h@.text + self.opts@.close,
    {
        let mut out: String = self.opts.open.clone();
        out.append(h.text.as_str());
        out.append(self.opts.close.as_str());
        out
    }

    /// The text of a document.
    fn value(&self, v: &Json) -> (r: Result<String, String>)
        requires
            self.opts@.open.len() > 0,
        ensures
            text_outcome(r) == value_text(*self.grammar, value::json_view(*v), self.opts@),
        decreases v, 0nat,
    {
        match v {
            Json::Null => Ok("null".to_owned()),
            Json::Bool(b) => if *b {
                Ok("true".to_owned())
            } else {
                Ok("false".to_owned())
            },
            Json::Number(t) => Ok(t.clone()),
            Json::Text(s) => self.string(s.as_str(), false),
            Json::Array(items) => match self.array(items) {
                Err(e) => Err(e),
                Ok(b) => {
                    let mut out: String = "[".to_owned();
                    out.append(b.as_str());
                    out.append("]");
                    Ok(out)
                },
            },
            Json::Object(members) => match self.object(members) {
                Err(e) => Err(e),
                Ok(b) => {
                    let mut out: String = "{".to_owned();
                    out.append(b.as_str());
                    out.append("}");
                    Ok(out)
                },
            },
        }
    }

    /// The text of a string, of a key where `key` holds.
    fn string(&self, s: &str, key: bool) -> (r: Result<String, String>)
        requires
            self.opts@.open.len() > 0,
        ensures
            text_outcome(r) == string_text(*self.grammar, s@, key, self.opts@),
    {
        if self.directive(s).is_some() {
            let mut m: String = "directive string `".to_owned();
            m.append(s);
            m.append("` outside a directive position; a `");
            m.append(self.opts.sigil.as_str());
            m.append("for` or `");
            m.append(self.opts.sigil.as_str());
            m.append("if` string leads an array, or is an object key");
            return Err(m);
        }
        let pieces: Vec<TilePiece> = match parse_template(
            self.grammar,
            s,
            self.opts,
            Span { line: 0, col: 0 },
        ) {
            Err(e) => {
                let mut m: String = "in string `".to_owned();
                m.append(s);
                m.append("`: ");
                m.append(e.as_str());
                return Err(m);
            },
            Ok(v) => v,
        };
        let ghost all = template::piece_views(pieces@);
        proof {
            template::lemma_piece_views(pieces@);
        }
        if has_directive(&pieces) {
            let mut m: String = "string `".to_owned();
            m.append(s);
            m.append(
                "` contains a directive; in the structural form directives are arrays and object keys",
            );
            return Err(m);
        }
        if !key && pieces.len() == 1 {
            match &pieces[0] {
                TilePiece::Hole(h) => {
                    assert(all[0] == PieceV::Hole(h@));
                    let put: bool = match &h.decl_type {
                        Some(t) => *t.as_str() == *"str",
                        None => false,
                    };
                    if !put {
                        assert(value_hole(all));
                        return Ok(self.hole(h));
                    }
                },
                _ => {},
            }
        }
        assert(!(!key && value_hole(all)));
        let mut out: String = "\"".to_owned();
        let inner: String = self.quoted(&pieces);
        out.append(inner.as_str());
        out.append("\"");
        Ok(out)
    }

    /// What stands between the quotes for a run of texts and holes.
    fn quoted(&self, pieces: &Vec<TilePiece>) -> (r: String)
        ensures
            r@ == quoted_pieces(template::piece_views(pieces@), self.opts@),
    {
        let ghost all = template::piece_views(pieces@);
        let mut out: String = "".to_owned();
        let mut i: usize = 0;
        proof {
            template::lemma_piece_views(pieces@);
            reveal_strlit("");
            assert(out@ =~= Seq::<char>::empty());
            assert(all.take(0) =~= Seq::<PieceV>::empty());
        }
        while i < pieces.len()
            invariant
                i <= pieces@.len(),
                all == template::piece_views(pieces@),
                all.len() == pieces@.len(),
                forall|k: int|
                    0 <= k < pieces@.len() ==> #[trigger] all[k] == template::piece_view(pieces@[k]),
                out@ == quoted_pieces(all.take(i as int), self.opts@),
            decreases pieces.len() - i,
        {
            assert(all.take(i + 1).drop_last() =~= all.take(i as int));
            assert(all.take(i + 1).last() == all[i as int]);
            let ghost before = out@;
            match &pieces[i] {
                TilePiece::Static(t) => {
                    let part: String = tile::escape(
                        document::json_inner(t.as_str()).as_str(),
                        self.opts.open.as_str(),
                    );
                    out.append(part.as_str());
                },
                TilePiece::Hole(h) => {
                    let part: String = self.hole(h);
                    out.append(part.as_str());
                },
                _ => {
                    assert(before + Seq::<char>::empty() =~= before);
                },
            }
            i = i + 1;
        }
        assert(all.take(i as int) =~= all);
        out
    }

    /// The text between the brackets of an array.
    fn array(&self, items: &Vec<Json>) -> (r: Result<String, String>)
        requires
            self.opts@.open.len() > 0,
        ensures
            text_outcome(r) == array_body(
                *self.grammar,
                value::json_items(items@),
                self.opts@,
            ),
        decreases items, 2nat,
    {
        let ghost all = value::json_items(items@);
        let n: usize = items.len();
        proof {
            value::lemma_json_items(items@);
        }
        if n == 0 {
            proof {
                reveal_strlit("");
                assert(""@ =~= Seq::<char>::empty());
            }
            return Ok("".to_owned());
        }
        let lead: Option<Directive> = self.item_directive(&items[0]);
        assert(all[0] == value::json_view(items@[0]));
        match lead {
            Some(Directive::For(header)) => match self.items(items, 1, n) {
                Err(e) => Err(e),
                Ok(b) => {
                    let mut out: String = self.opts.sigil.clone();
                    out.append("for ");
                    out.append(header.as_str());
                    out.append(" { ");
                    out.append(b.as_str());
                    out.append(" }");
                    Ok(out)
                },
            },
            Some(Directive::If(cond)) => {
                let k: usize = self.find_else(items);
                match self.items(items, 1, k) {
                    Err(e) => Err(e),
                    Ok(b) => {
                        let mut out: String = self.opts.sigil.clone();
                        out.append("if ");
                        out.append(cond.as_str());
                        out.append(" { ");
                        out.append(b.as_str());
                        out.append(" }");
                        if k < n {
                            match self.items(items, k + 1, n) {
                                Err(e) => {
                                    return Err(e);
                                },
                                Ok(c) => {
                                    out.append(" ");
                                    out.append(self.opts.sigil.as_str());
                                    out.append("else { ");
                                    out.append(c.as_str());
                                    out.append(" }");
                                },
                            }
                        }
                        Ok(out)
                    },
                }
            },
            Some(Directive::Else) => {
                let mut m: String = "`".to_owned();
                m.append(self.opts.sigil.as_str());
                m.append("else` without a leading `");
                m.append(self.opts.sigil.as_str());
                m.append("if`");
                Err(m)
            },
            None => {
                assert(all.subrange(0, n as int) =~= all);
                self.items(items, 0, n)
            },
        }
    }

    /// The directive that a document is, if it is the string of one.
    fn item_directive(&self, v: &Json) -> (r: Option<Directive>)
        ensures
            maybe_directive(r) == item_directive(value::json_view(*v), self.opts@),
    {
        match v {
            Json::Text(s) => self.directive(s.as_str()),
            _ => None,
        }
    }

    /// The place of the first `else` behind the first document.
    fn find_else(&self, items: &Vec<Json>) -> (r: usize)
        requires
            items@.len() > 0,
        ensures
            1 <= r <= items@.len(),
            r == else_place(value::json_items(items@), self.opts@, 1),
    {
        let ghost all = value::json_items(items@);
        proof {
            value::lemma_json_items(items@);
        }
        let mut i: usize = 1;
        while i < items.len()
            invariant
                1 <= i <= items@.len(),
                all.len() == items@.len(),
                forall|k: int|
                    0 <= k < items@.len() ==> #[trigger] all[k] == value::json_view(items@[k]),
                else_place(all, self.opts@, 1) == else_place(all, self.opts@, i as int),
                all == value::json_items(items@),
            decreases items.len() - i,
        {
            assert(all[i as int] == value::json_view(items@[i as int]));
            match self.item_directive(&items[i]) {
                Some(Directive::Else) => {
                    return i;
                },
                _ => {},
            }
            i = i + 1;
        }
        i
    }

    /// The texts of the documents from `from` to before `to`.
    fn items(&self, items: &Vec<Json>, from: usize, to: usize) -> (r: Result<String, String>)
        requires
            self.opts@.open.len() > 0,
            from <= to <= items@.len(),
        ensures
            text_outcome(r) == items_text(
                *self.grammar,
                value::json_items(items@).subrange(from as int, to as int),
                self.opts@,
            ),
        decreases items, 1nat,
    {
        let ghost all = value::json_items(items@);
        let ghost part = all.subrange(from as int, to as int);
        let mut out: String = "".to_owned();
        let mut i: usize = from;
        proof {
            value::lemma_json_items(items@);
            reveal_strlit("");
            assert(out@ =~= Seq::<char>::empty());
            assert(part.take(0) =~= Seq::<JsonV>::empty());
        }
        while i < to
            invariant
                self.opts@.open.len() > 0,
                from <= i <= to <= items@.len(),
                all == value::json_items(items@),
                all.len() == items@.len(),
                part == all.subrange(from as int, to as int),
                forall|k: int|
                    0 <= k < items@.len() ==> #[trigger] all[k] == value::json_view(items@[k]),
                items_text(*self.grammar, part.take(i - from), self.opts@) == Ok::<
                    Seq<char>,
                    Seq<char>,
                >(out@),
            decreases to - i,
        {
            assert(decreases_to!(items@ => items@[i as int]));
            assert(decreases_to!(*items => items@));
            assert(part.take(i - from + 1).drop_last() =~= part.take(i - from));
            assert(part.take(i - from + 1).last() == all[i as int]);
            match self.value(&items[i]) {
                Err(e) => {
                    proof {
                        lemma_items_stop(*self.grammar, part, self.opts@, i - from + 1);
                    }
                    return Err(e);
                },
                Ok(b) => {
                    if i > from {
                        out.append(", ");
                        out.append(b.as_str());
                    } else {
                        out = b;
                    }
                },
            }
            i = i + 1;
        }
        assert(part.take(i - from) =~= part);
        Ok(out)
    }

    /// The texts of a run of members, with commas between.
    fn run(&self, members: &Vec<(String, Json)>) -> (r: Result<String, String>)
        requires
            self.opts@.open.len() > 0,
        ensures
            text_outcome(r) == run_text(
                *self.grammar,
                value::json_members(members@),
                self.opts@,
            ),
        decreases members, 1nat,
    {
        let ghost all = value::json_members(members@);
        let mut out: String = "".to_owned();
        let mut i: usize = 0;
        proof {
            value::lemma_json_members(members@);
            reveal_strlit("");
            assert(out@ =~= Seq::<char>::empty());
            assert(all.take(0) =~= Seq::<(Seq<char>, JsonV)>::empty());
        }
        while i < members.len()
            invariant
                self.opts@.open.len() > 0,
                i <= members@.len(),
                all == value::json_members(members@),
                all.len() == members@.len(),
                forall|k: int|
                    0 <= k < members@.len() ==> #[trigger] all[k] == (
                        members@[k].0@,
                        value::json_view(members@[k].1),
                    ),
                run_text(*self.grammar, all.take(i as int), self.opts@) == Ok::<
                    Seq<char>,
                    Seq<char>,
                >(out@),
            decreases members.len() - i,
        {
            assert(decreases_to!(members@[i as int] => members@[i as int].1));
            assert(decreases_to!(members@ => members@[i as int]));
            assert(decreases_to!(*members => members@));
            assert(all.take(i + 1).drop_last() =~= all.take(i as int));
            assert(all.take(i + 1).last() == all[i as int]);
            let key: String = match self.string(members[i].0.as_str(), true) {
                Err(e) => {
                    proof {
                        lemma_run_stop(*self.grammar, all, self.opts@, i + 1);
                    }
                    return Err(e);
                },
                Ok(k) => k,
            };
            let held: String = match self.value(&members[i].1) {
                Err(e) => {
                    proof {
                        lemma_run_stop(*self.grammar, all, self.opts@, i + 1);
                    }
                    return Err(e);
                },
                Ok(b) => b,
            };
            if i > 0 {
                out.append(", ");
                out.append(key.as_str());
            } else {
                out = key;
            }
            out.append(": ");
            out.append(held.as_str());
            i = i + 1;
        }
        assert(all.take(i as int) =~= all);
        Ok(out)
    }

    /// The members of the document under a directive key.
    fn members(&self, key: &str, v: &Json, comma: Comma) -> (r: Result<String, String>)
        requires
            self.opts@.open.len() > 0,
        ensures
            text_outcome(r) == members_text(
                *self.grammar,
                key@,
                value::json_view(*v),
                comma,
                self.opts@,
            ),
        decreases v, 2nat,
    {
        match v {
            Json::Object(members) => match self.run(members) {
                Err(e) => Err(e),
                Ok(b) => match comma {
                    Comma::Leading => {
                        let mut out: String = ", ".to_owned();
                        out.append(b.as_str());
                        Ok(out)
                    },
                    Comma::Trailing => {
                        let mut out: String = b;
                        out.append(", ");
                        Ok(out)
                    },
                    Comma::Sep => Ok(b),
                },
            },
            _ => {
                let mut m: String = "the value under directive key `".to_owned();
                m.append(key);
                m.append("` must be an object of members");
                Err(m)
            },
        }
    }

    /// Whether a member from `from` on is no `else`.
    fn has_more(&self, members: &Vec<(String, Json)>, from: usize) -> (r: bool)
        ensures
            r == more_after(value::json_members(members@), self.opts@, from as int),
    {
        let ghost all = value::json_members(members@);
        proof {
            value::lemma_json_members(members@);
        }
        let mut j: usize = from;
        while j < members.len()
            invariant
                from <= j,
                all == value::json_members(members@),
                all.len() == members@.len(),
                forall|k: int|
                    0 <= k < members@.len() ==> #[trigger] all[k] == (
                        members@[k].0@,
                        value::json_view(members@[k].1),
                    ),
                forall|k: int|
                    from <= k < j && k < all.len() ==> directive((#[trigger] all[k]).0, self.opts@) == Some(
                        DirectiveV::Else,
                    ),
            decreases members.len() - j,
        {
            assert(all[j as int].0 == members@[j as int].0@);
            if !self.is_else(members[j].0.as_str()) {
                return true;
            }
            j = j + 1;
        }
        false
    }

    /// The text between the braces of an object. A directive beside plain
    /// members carries its comma inside its own body, so that a body that
    /// is written no time leaves no comma behind.
    #[verifier::rlimit(60)]
    fn object(&self, members: &Vec<(String, Json)>) -> (r: Result<String, String>)
        requires
            self.opts@.open.len() > 0,
        ensures
            text_outcome(r) == object_from(
                *self.grammar,
                value::json_members(members@),
                self.opts@,
                0,
                false,
                Seq::empty(),
            ),
        decreases members, 3nat,
    {
        let ghost all = value::json_members(members@);
        let ghost o = self.opts@;
        let ghost goal = object_from(*self.grammar, all, o, 0, false, Seq::empty());
        let mut out: String = "".to_owned();
        let mut i: usize = 0;
        let mut before: bool = false;
        proof {
            value::lemma_json_members(members@);
            reveal_strlit("");
            assert(out@ =~= Seq::<char>::empty());
        }
        while i < members.len()
            invariant
                self.opts@.open.len() > 0,
                i <= members@.len(),
                o == self.opts@,
                all == value::json_members(members@),
                all.len() == members@.len(),
                forall|k: int|
                    0 <= k < members@.len() ==> #[trigger] all[k] == (
                        members@[k].0@,
                        value::json_view(members@[k].1),
                    ),
                goal == object_from(*self.grammar, all, o, 0, false, Seq::empty()),
                goal == object_from(*self.grammar, all, o, i as int, before, out@),
            decreases members.len() - i,
        {
            assert(decreases_to!(members@[i as int] => members@[i as int].1));
            assert(decreases_to!(members@ => members@[i as int]));
            assert(decreases_to!(*members => members@));
            let key: &str = members[i].0.as_str();
            assert(all[i as int].0 == key@);
            let after: bool = self.has_more(members, i + 1);
            let comma: Comma = if before {
                Comma::Leading
            } else if after {
                Comma::Trailing
            } else {
                Comma::Sep
            };
            match self.directive(key) {
                Some(Directive::For(header)) => {
                    let body: String = match self.members(key, &members[i].1, comma) {
                        Err(e) => {
                            return Err(e);
                        },
                        Ok(b) => b,
                    };
                    out.append(self.opts.sigil.as_str());
                    out.append("for ");
                    out.append(header.as_str());
                    if before || after {
                        out.append(" sep \"\"");
                    } else {
                        out.append("");
                    }
                    out.append(" { ");
                    out.append(body.as_str());
                    out.append(" }");
                },
                Some(Directive::If(cond)) => {
                    let body: String = match self.members(key, &members[i].1, comma) {
                        Err(e) => {
                            return Err(e);
                        },
                        Ok(b) => b,
                    };
                    out.append(self.opts.sigil.as_str());
                    out.append("if ");
                    out.append(cond.as_str());
                    out.append(" { ");
                    out.append(body.as_str());
                    out.append(" }");
                    if i + 1 < members.len() && self.is_else(members[i + 1].0.as_str()) {
                        assert(all[i + 1].0 == members@[i + 1].0@);
                        assert(decreases_to!(members@[i + 1] => members@[i + 1].1));
                        assert(decreases_to!(members@ => members@[i + 1]));
                        let other: String = match self.members(
                            members[i + 1].0.as_str(),
                            &members[i + 1].1,
                            comma,
                        ) {
                            Err(e) => {
                                return Err(e);
                            },
                            Ok(b) => b,
                        };
                        out.append(" ");
                        out.append(self.opts.sigil.as_str());
                        out.append("else { ");
                        out.append(other.as_str());
                        out.append(" }");
                        i = i + 1;
                    } else {
                        assert(i + 1 < all.len() ==> all[i + 1].0 == members@[i + 1].0@);
                    }
                },
                Some(Directive::Else) => {
                    let mut m: String = "`".to_owned();
                    m.append(self.opts.sigil.as_str());
                    m.append("else` key without a preceding `");
                    m.append(self.opts.sigil.as_str());
                    m.append("if` key");
                    return Err(m);
                },
                None => {
                    let name: String = match self.string(key, true) {
                        Err(e) => {
                            return Err(e);
                        },
                        Ok(k) => k,
                    };
                    let held: String = match self.value(&members[i].1) {
                        Err(e) => {
                            return Err(e);
                        },
                        Ok(b) => b,
                    };
                    if before {
                        out.append(", ");
                    } else {
                        out.append("");
                    }
                    out.append(name.as_str());
                    out.append(": ");
                    out.append(held.as_str());
                    before = true;
                },
            }
            i = i + 1;
        }
        Ok(out)
    }
}

/// Whether a run of pieces holds a directive.
fn has_directive(pieces: &Vec<TilePiece>) -> (r: bool)
    ensures
        r == holds_directive(template::piece_views(pieces@)),
{
    let ghost all = template::piece_views(pieces@);
    proof {
        template::lemma_piece_views(pieces@);
    }
    let mut i: usize = 0;
    while i < pieces.len()
        invariant
            i <= pieces@.len(),
            all == template::piece_views(pieces@),
            all.len() == pieces@.len(),
            forall|k: int|
                0 <= k < pieces@.len() ==> #[trigger] all[k] == template::piece_view(pieces@[k]),
            forall|k: int| 0 <= k < i ==> !((#[trigger] all[k]) is Projection || all[k] is Branch),
        decreases pieces.len() - i,
    {
        match &pieces[i] {
            TilePiece::Static(_) => {
                assert(all[i as int] is Static);
            },
            TilePiece::Hole(_) => {
                assert(all[i as int] is Hole);
            },
            _ => {
                assert(all[i as int] is Projection || all[i as int] is Branch);
                return true;
            },
        }
        i = i + 1;
    }
    false
}

/// The template text of a document: what an author would have written in a
/// JSON template for it.
pub fn template_text_from_value<G: Grammar>(
    grammar: &G,
    value: &Json,
    options: &TileOptions,
) -> (r: Result<String, String>)
    requires
        options@.open.len() > 0,
    ensures
        text_outcome(r) == value_text(*grammar, value::json_view(*value), options@),
{
    let t: Textualizer<G> = Textualizer { grammar, opts: options };
    t.value(value)
}

// ---------------------------------------------------------------------
// Templates from what a host holds
// ---------------------------------------------------------------------

/// The message `e` of the template `name`.
fn tell(name: &str, e: &str) -> (r: String)
    ensures
        r@ == told(name@, e@),
{
    let mut m: String = "tile '".to_owned();
    m.append(name);
    m.append("': ");
    m.append(e);
    m
}

/// Whether a template may have the encoding.
pub fn check_encoding(name: &str, encoding: &str) -> (r: Result<(), String>)
    ensures
        match r {
            Ok(_) => encodings().contains(encoding@),
            Err(e) => !encodings().contains(encoding@) && e@ == encoding_fault(name@, encoding@),
        },
{
    assert(encodings()[0] == "json"@ && encodings()[1] == "text"@ && encodings()[2] == "csv"@);
    if *encoding == *"json" || *encoding == *"text" || *encoding == *"csv" {
        Ok(())
    } else {
        let mut m: String = "tile '".to_owned();
        m.append(name);
        m.append("': unknown encoding '");
        m.append(encoding);
        m.append("'; encodings are json, text, csv");
        Err(m)
    }
}

/// The template with a name that a text is.
pub open spec fn tile_of<G: Grammar>(
    g: G,
    name: Seq<char>,
    encoding: Seq<char>,
    text: Seq<char>,
    o: OptionsV,
    kind: TileBodyKind,
    span: Span,
) -> Result<TileDefV, Seq<char>> {
    match tile::template_of(g, text, o, span) {
        Err(e) => Err(told(name, e)),
        Ok(pieces) => Ok(
            TileDefV {
                name,
                encoding: Some(encoding),
                options: o,
                body_kind: kind,
                body: text,
                pieces,
                span,
            },
        ),
    }
}

/// Builds the template with a name that a text is.
fn build_tile<G: Grammar>(
    grammar: &G,
    name: &str,
    encoding: &str,
    text: &str,
    options: &TileOptions,
    kind: TileBodyKind,
    span: Span,
) -> (r: Result<TileDef, String>)
    requires
        options@.open.len() > 0,
    ensures
        tile_outcome(r) == tile_of(*grammar, name@, encoding@, text@, options@, kind, span),
{
    match parse_template(grammar, text, options, span) {
        Err(e) => Err(tell(name, e.as_str())),
        Ok(pieces) => Ok(
            TileDef {
                name: name.to_owned(),
                encoding: Some(encoding.to_owned()),
                options: options.copy(),
                body_kind: kind,
                body: text.to_owned(),
                pieces,
                span,
            },
        ),
    }
}

/// A template from text that a host holds, taken exactly.
pub fn tile_from_text<G: Grammar>(
    grammar: &G,
    name: &str,
    encoding: &str,
    text: &str,
    options: &TileOptions,
    span: Span,
) -> (r: Result<TileDef, String>)
    requires
        options@.open.len() > 0,
    ensures
        tile_outcome(r) == if encodings().contains(encoding@) {
            tile_of(*grammar, name@, encoding@, text@, options@, TileBodyKind::Heredoc, span)
        } else {
            Err(encoding_fault(name@, encoding@))
        },
{
    match check_encoding(name, encoding) {
        Err(e) => Err(e),
        Ok(_) => build_tile(grammar, name, encoding, text, options, TileBodyKind::Heredoc, span),
    }
}

/// The template that a document is.
pub open spec fn tile_of_document<G: Grammar>(
    g: G,
    name: Seq<char>,
    v: JsonV,
    o: OptionsV,
    span: Span,
) -> Result<TileDefV, Seq<char>> {
    match value_text(g, v, o) {
        Err(e) => Err(told(name, e)),
        Ok(text) => tile_of(g, name, "json"@, text, o, TileBodyKind::Block, span),
    }
}

/// A template from a document that a host holds as JSON text.
pub fn tile_from_json_text<G: Grammar>(
    grammar: &G,
    name: &str,
    json: &str,
    options: &TileOptions,
    span: Span,
) -> (r: Result<TileDef, String>)
    requires
        options@.open.len() > 0,
    ensures
        tile_outcome(r) == match document::json_text(json@) {
            Ok(v) => tile_of_document(*grammar, name@, v, options@, span),
            Err(e) => Err(
                "tile '"@ + name@ + "': structural template is not JSON: "@ + e,
            ),
        },
{
    match document::read_json(json) {
        Err(e) => {
            let mut m: String = "tile '".to_owned();
            m.append(name);
            m.append("': structural template is not JSON: ");
            m.append(e.as_str());
            Err(m)
        },
        Ok(v) => tile_from_json_value(grammar, name, &v, options, span),
    }
}

/// A template from a document that a host has already read.
pub fn tile_from_json_value<G: Grammar>(
    grammar: &G,
    name: &str,
    value: &Json,
    options: &TileOptions,
    span: Span,
) -> (r: Result<TileDef, String>)
    requires
        options@.open.len() > 0,
    ensures
        tile_outcome(r) == tile_of_document(
            *grammar,
            name@,
            value::json_view(*value),
            options@,
            span,
        ),
{
    match template_text_from_value(grammar, value, options) {
        Err(e) => Err(tell(name, e.as_str())),
        Ok(body) => build_tile(
            grammar,
            name,
            "json",
            body.as_str(),
            options,
            TileBodyKind::Block,
            span,
        ),
    }
}

/// Members without directives are written one after the other from any of
/// them on.
proof fn lemma_plain_from<G: Grammar>(g: G, s: Seq<(Seq<char>, JsonV)>, o: OptionsV, i: int)
    requires
        0 <= i <= s.len(),
        forall|j: int| 0 <= j < s.len() ==> directive((#[trigger] s[j]).0, o) is None,
        run_text(g, s.take(i), o) is Ok,
    ensures
        object_from(g, s, o, i, i > 0, run_text(g, s.take(i), o)->Ok_0) == run_text(g, s, o),
    decreases s.len() - i,
{
    if i == s.len() {
        assert(s.take(i) =~= s);
    } else {
        let t = s.take(i + 1);
        let out = run_text(g, s.take(i), o)->Ok_0;
        assert(t.drop_last() =~= s.take(i));
        assert(t.last() == s[i]);
        assert(directive(s[i].0, o) is None);
        reveal_strlit("");
        if run_text(g, t, o) is Ok {
            let k = string_text(g, s[i].0, true, o)->Ok_0;
            let b = value_text(g, s[i].1, o)->Ok_0;
            let lead = if i > 0 {
                ", "@
            } else {
                ""@
            };
            if i == 0 {
                assert(s.take(0).len() == 0);
            }
            assert(out + lead + k + ": "@ + b =~= run_text(g, t, o)->Ok_0);
            lemma_plain_from(g, s, o, i + 1);
        } else {
            lemma_run_stop(g, s, o, i + 1);
        }
    }
}

/// The pairs of an object without directives have a comma between each two,
/// and none elsewhere.
pub proof fn law_plain_members<G: Grammar>(g: G, s: Seq<(Seq<char>, JsonV)>, o: OptionsV)
    requires
        forall|j: int| 0 <= j < s.len() ==> directive((#[trigger] s[j]).0, o) is None,
    ensures
        object_from(g, s, o, 0, false, Seq::empty()) == run_text(g, s, o),
{
    assert(s.take(0).len() == 0);
    lemma_plain_from(g, s, o, 0);
}

} // verus!
