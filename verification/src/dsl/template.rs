//! Templates: text with holes, projections and branches.
use crate::dsl::ast::{Expr, ExprV, Span};
use vstd::prelude::*;

verus! {

/// How a template is written.
#[derive(Clone, Debug, PartialEq)]
pub struct TileOptions {
    /// What opens a hole; twice in a row it stands for itself.
    pub open: String,
    /// What closes a hole.
    pub close: String,
    /// What a directive begins with.
    pub sigil: String,
    /// Whether a hole may need no conversion.
    pub strict: bool,
}

/// The content of how a template is written.
#[verifier::ext_equal]
pub struct OptionsV {
    pub open: Seq<char>,
    pub close: Seq<char>,
    pub sigil: Seq<char>,
    pub strict: bool,
}

impl View for TileOptions {
    type V = OptionsV;

    open spec fn view(&self) -> OptionsV {
        OptionsV {
            open: self.open@,
            close: self.close@,
            sigil: self.sigil@,
            strict: self.strict,
        }
    }
}

/// How a template is written by default.
pub open spec fn default_options() -> OptionsV {
    OptionsV { open: "${"@, close: "}"@, sigil: "@"@, strict: false }
}

impl Default for TileOptions {
    fn default() -> (r: TileOptions)
        ensures
            r@ == default_options(),
    {
        TileOptions {
            open: "${".to_owned(),
            close: "}".to_owned(),
            sigil: "@".to_owned(),
            strict: false,
        }
    }
}

impl TileOptions {
    /// The same.
    pub fn copy(&self) -> (r: TileOptions)
        ensures
            r@ == self@,
    {
        TileOptions {
            open: self.open.clone(),
            close: self.close.clone(),
            sigil: self.sigil.clone(),
            strict: self.strict,
        }
    }
}

/// An expression and how it prints.
#[derive(Debug, PartialEq)]
pub struct Reading {
    pub expr: Expr,
    pub shown: String,
}

/// The content of an expression and how it prints.
#[verifier::ext_equal]
pub struct ReadingV {
    pub expr: ExprV,
    pub shown: Seq<char>,
}

impl View for Reading {
    type V = ReadingV;

    open spec fn view(&self) -> ReadingV {
        ReadingV { expr: self.expr@, shown: self.shown@ }
    }
}

/// What a projection runs over: its text, and the producer it names, if it
/// names one.
#[derive(Debug, PartialEq)]
pub struct ForSource {
    pub text: String,
    pub producer: Option<String>,
}

/// The content of what a projection runs over.
#[verifier::ext_equal]
pub struct ForSourceV {
    pub text: Seq<char>,
    pub producer: Option<Seq<char>>,
}

/// The content of a text that may be missing.
pub open spec fn maybe(t: Option<String>) -> Option<Seq<char>> {
    match t {
        Some(s) => Some(s@),
        None => None,
    }
}

/// The same text, if there is one.
pub fn copy_maybe(t: &Option<String>) -> (r: Option<String>)
    ensures
        maybe(r) == maybe(*t),
{
    match t {
        Some(s) => Some(s.clone()),
        None => None,
    }
}

impl View for ForSource {
    type V = ForSourceV;

    open spec fn view(&self) -> ForSourceV {
        ForSourceV { text: self.text@, producer: maybe(self.producer) }
    }
}

/// A hole.
#[derive(Debug, PartialEq)]
pub struct TileHole {
    /// What stands in it.
    pub text: String,
    pub expr: Expr,
    pub decl_type: Option<String>,
    pub format: Option<String>,
    /// Whether the text goes in as it is.
    pub raw: bool,
    pub span: Span,
}

/// The content of a hole.
#[verifier::ext_equal]
pub struct HoleV {
    pub text: Seq<char>,
    pub expr: ExprV,
    pub decl_type: Option<Seq<char>>,
    pub format: Option<Seq<char>>,
    pub raw: bool,
    pub span: Span,
}

impl View for TileHole {
    type V = HoleV;

    open spec fn view(&self) -> HoleV {
        HoleV {
            text: self.text@,
            expr: self.expr@,
            decl_type: maybe(self.decl_type),
            format: maybe(self.format),
            raw: self.raw,
            span: self.span,
        }
    }
}

/// A piece of a template.
#[derive(Debug, PartialEq)]
pub enum TilePiece {
    /// Text as it is.
    Static(String),
    /// A value.
    Hole(TileHole),
    /// The body once for each tuple.
    Projection { source: ForSource, sep: Option<String>, body: Vec<TilePiece>, span: Span },
    /// One body or the other.
    Branch { cond: Reading, then: Vec<TilePiece>, otherwise: Option<Vec<TilePiece>>, span: Span },
}

/// The content of a piece.
#[verifier::ext_equal]
pub enum PieceV {
    Static(Seq<char>),
    Hole(HoleV),
    Projection(ForSourceV, Option<Seq<char>>, Seq<PieceV>, Span),
    Branch(ReadingV, Seq<PieceV>, Option<Seq<PieceV>>, Span),
}

/// The content of a piece.
pub open spec fn piece_view(p: TilePiece) -> PieceV
    decreases p, 0nat,
{
    match p {
        TilePiece::Static(s) => PieceV::Static(s@),
        TilePiece::Hole(h) => PieceV::Hole(h@),
        TilePiece::Projection { source, sep, body, span } => PieceV::Projection(
            source@,
            maybe(sep),
            piece_views(body@),
            span,
        ),
        TilePiece::Branch { cond, then: yes, otherwise, span } => PieceV::Branch(
            cond@,
            piece_views(yes@),
            match otherwise {
                Some(no) => Some(piece_views(no@)),
                None => None,
            },
            span,
        ),
    }
}

/// The contents of a run of pieces.
pub open spec fn piece_views(s: Seq<TilePiece>) -> Seq<PieceV>
    decreases s, s.len(),
{
    if s.len() == 0 {
        Seq::empty()
    } else {
        piece_views(s.drop_last()).push(piece_view(s.last()))
    }
}

/// A run of pieces has as many contents, each that of its own.
pub proof fn lemma_piece_views(s: Seq<TilePiece>)
    ensures
        piece_views(s).len() == s.len(),
        forall|i: int| 0 <= i < s.len() ==> #[trigger] piece_views(s)[i] == piece_view(s[i]),
    decreases s.len(),
{
    if s.len() > 0 {
        lemma_piece_views(s.drop_last());
    }
}

impl View for TilePiece {
    type V = PieceV;

    open spec fn view(&self) -> PieceV {
        piece_view(*self)
    }
}

impl Reading {
    /// The same.
    pub fn copy(&self) -> (r: Reading)
        ensures
            r@ == self@,
    {
        Reading { expr: self.expr.copy(), shown: self.shown.clone() }
    }
}

impl ForSource {
    /// The same.
    pub fn copy(&self) -> (r: ForSource)
        ensures
            r@ == self@,
    {
        ForSource { text: self.text.clone(), producer: copy_maybe(&self.producer) }
    }
}

impl TileHole {
    /// The same hole.
    pub fn copy(&self) -> (r: TileHole)
        ensures
            r@ == self@,
    {
        TileHole {
            text: self.text.clone(),
            expr: self.expr.copy(),
            decl_type: copy_maybe(&self.decl_type),
            format: copy_maybe(&self.format),
            raw: self.raw,
            span: self.span,
        }
    }
}

impl TilePiece {
    /// The same piece.
    pub fn copy(&self) -> (r: TilePiece)
        ensures
            r@ == self@,
        decreases self, 0nat,
    {
        match self {
            TilePiece::Static(s) => TilePiece::Static(s.clone()),
            TilePiece::Hole(h) => TilePiece::Hole(h.copy()),
            TilePiece::Projection { source, sep, body, span } => {
                assert(decreases_to!(*self => *body));
                TilePiece::Projection {
                    source: source.copy(),
                    sep: copy_maybe(sep),
                    body: copy_pieces(body),
                    span: *span,
                }
            },
            TilePiece::Branch { cond, then: yes, otherwise, span } => TilePiece::Branch {
                cond: cond.copy(),
                then: copy_pieces(yes),
                otherwise: match otherwise {
                    Some(no) => Some(copy_pieces(no)),
                    None => None,
                },
                span: *span,
            },
        }
    }
}

/// The same pieces.
pub fn copy_pieces(v: &Vec<TilePiece>) -> (r: Vec<TilePiece>)
    ensures
        piece_views(r@) == piece_views(v@),
    decreases v, 1nat,
{
    let mut out: Vec<TilePiece> = Vec::new();
    let mut i: usize = 0;
    while i < v.len()
        invariant
            i <= v@.len(),
            out@.len() == i,
            forall|k: int| 0 <= k < i ==> piece_view(#[trigger] out@[k]) == piece_view(v@[k]),
        decreases v.len() - i,
    {
        assert(decreases_to!(v@ => v@[i as int]));
        assert(decreases_to!(*v => v@));
        out.push(v[i].copy());
        i = i + 1;
    }
    proof {
        lemma_piece_views(out@);
        lemma_piece_views(v@);
        assert(piece_views(out@) =~= piece_views(v@));
    }
    out
}

/// How the body of a template stands in its source.
#[derive(Clone, Copy, Debug, PartialEq, Eq, Structural)]
pub enum TileBodyKind {
    /// Text taken exactly.
    Heredoc,
    /// A block of the language.
    Block,
}

/// A template with its name.
#[derive(Debug, PartialEq)]
pub struct TileDef {
    pub name: String,
    pub encoding: Option<String>,
    pub options: TileOptions,
    pub body_kind: TileBodyKind,
    pub body: String,
    pub pieces: Vec<TilePiece>,
    pub span: Span,
}

/// The content of a template with its name.
#[verifier::ext_equal]
pub struct TileDefV {
    pub name: Seq<char>,
    pub encoding: Option<Seq<char>>,
    pub options: OptionsV,
    pub body_kind: TileBodyKind,
    pub body: Seq<char>,
    pub pieces: Seq<PieceV>,
    pub span: Span,
}

impl View for TileDef {
    type V = TileDefV;

    open spec fn view(&self) -> TileDefV {
        TileDefV {
            name: self.name@,
            encoding: maybe(self.encoding),
            options: self.options@,
            body_kind: self.body_kind,
            body: self.body@,
            pieces: piece_views(self.pieces@),
            span: self.span,
        }
    }
}

/// The contents of a run of templates.
pub open spec fn tile_views(s: Seq<TileDef>) -> Seq<TileDefV> {
    Seq::new(s.len(), |i: int| s[i]@)
}

impl TileDef {
    /// The same template.
    pub fn copy(&self) -> (r: TileDef)
        ensures
            r@ == self@,
    {
        TileDef {
            name: self.name.clone(),
            encoding: copy_maybe(&self.encoding),
            options: self.options.copy(),
            body_kind: self.body_kind,
            body: self.body.clone(),
            pieces: copy_pieces(&self.pieces),
            span: self.span,
        }
    }
}

} // verus!
