//! Lowering a template.
//!
//! Each hole becomes a binding that encodes its value. Runs of plain text
//! become one step. The body of a projection becomes a program of its own,
//! whose holes are bindings too. The template itself becomes a call over
//! the encoded holes and over the outer wires that a body reads.
use crate::chars;
use crate::comprehension::ast as algebra;
use crate::comprehension::ast::{CompV, Comprehension};
use crate::dsl::assembly::{KindV, NodeKind, WireRef, WireV};
use crate::dsl::ast;
use crate::dsl::ast::{Arg, ArgV, BindingModifier, CallExpr, Expr, ExprV, Span, WireModifier};
use crate::dsl::binding;
use crate::dsl::compile;
use crate::dsl::compiler;
use crate::dsl::compiler::{Compiler, CompilerV, Toolbox};
use crate::dsl::events;
use crate::dsl::events::{CompileEvent, CompiledV, EventV, TypedV};
use crate::dsl::refs;
use crate::dsl::template;
use crate::dsl::template::{
    ForSource, ForSourceV, HoleV, OptionsV, PieceV, Reading, ReadingV, TileDef, TileDefV, TileHole,
    TileOptions, TilePiece,
};
use crate::dsl::tile;
use crate::dsl::tile::Grammar;
use crate::dsl::tile_ops;
use crate::dsl::tile_ops::{
    ChildSpec, ChildV, EncodingV, HoleEncoding, HolePosition, HoleSource, HoleSourceV, OpV, RepeatV,
    SkeletonShape, TileOp, TileSpec, TileSpecV,
};
use crate::dsl::tile_source;
use crate::value;
use crate::value::PortType;
use vstd::prelude::*;

verus! {

// ---------------------------------------------------------------------
// What lowering a template takes from outside
// ---------------------------------------------------------------------

/// A producer that was bound before.
#[derive(Debug, PartialEq)]
pub struct Producer {
    pub name: String,
    pub source_text: String,
}

/// The content of a producer.
#[verifier::ext_equal]
pub struct ProducerV {
    pub name: Seq<char>,
    pub source_text: Seq<char>,
}

impl View for Producer {
    type V = ProducerV;

    open spec fn view(&self) -> ProducerV {
        ProducerV { name: self.name@, source_text: self.source_text@ }
    }
}

/// The contents of a run of producers.
pub open spec fn producer_views(s: Seq<Producer>) -> Seq<ProducerV> {
    Seq::new(s.len(), |i: int| s[i]@)
}

/// How many tuples a comprehension has.
#[derive(Clone, Copy, Debug, PartialEq, Eq, Structural)]
pub enum Reach {
    /// So many, or at most so many.
    Bounded,
    /// No end is known.
    Unbounded,
    /// A continuum, on an axis at least.
    Continuous,
}

/// The contents of names with a type.
pub open spec fn element_views(s: Seq<(String, PortType)>) -> Seq<(Seq<char>, PortType)> {
    Seq::new(s.len(), |i: int| (s[i].0@, s[i].1))
}

/// The contents of what was found for each of a run of expressions.
pub open spec fn probe_views(s: Seq<Result<PortType, String>>) -> Seq<
    Result<PortType, Seq<char>>,
> {
    Seq::new(s.len(), |i: int| compiler::told(s[i]))
}

/// The content of a comprehension, or why there is none.
pub open spec fn comp_outcome(r: Result<Comprehension, String>) -> Result<CompV, Seq<char>> {
    match r {
        Ok(c) => Ok(algebra::comp_view(c)),
        Err(e) => Err(e@),
    }
}

/// The content of names with a type, or why there are none.
pub open spec fn elements_outcome(r: Result<Vec<(String, PortType)>, String>) -> Result<
    Seq<(Seq<char>, PortType)>,
    Seq<char>,
> {
    match r {
        Ok(v) => Ok(element_views(v@)),
        Err(e) => Err(e@),
    }
}

/// The content of a node, if there is one.
pub open spec fn maybe_kind(k: Option<NodeKind>) -> Option<KindV> {
    match k {
        Some(x) => Some(x@),
        None => None,
    }
}

/// What lowering a template takes from outside: the comprehension of a
/// source, what its elements are, how things are written, and which
/// conversions there are.
pub trait TileTools: Toolbox + Grammar {
    /// The comprehension of a source.
    spec fn resolved(&self, source: ForSourceV, producers: Seq<ProducerV>) -> Result<
        CompV,
        Seq<char>,
    >;

    /// How many tuples a comprehension has.
    spec fn reach(&self, c: CompV) -> Reach;

    /// How a stream is written.
    spec fn streamed(&self, text: Seq<char>, c: CompV) -> Seq<char>;

    /// The elements of a comprehension with their types; `probed` holds
    /// what was found for each generator.
    spec fn elements(&self, c: CompV, probed: Seq<Result<PortType, Seq<char>>>) -> Result<
        Seq<(Seq<char>, PortType)>,
        Seq<char>,
    >;

    /// The type of what a text generates, taken by itself.
    spec fn probed(&self, text: Seq<char>) -> Result<PortType, Seq<char>>;

    /// How an expression prints.
    spec fn printed(&self, e: ExprV) -> Seq<char>;

    /// The node that converts between two types.
    spec fn adapter(&self, from: PortType, to: PortType) -> Option<KindV>;

    /// How an encoding is written.
    spec fn encoded(&self, e: EncodingV) -> Seq<char>;

    /// How a template is written.
    spec fn written(&self, s: TileSpecV) -> Seq<char>;

    /// What is wrong with the program of a body.
    spec fn body_fault(&self, source: Seq<char>) -> Option<Seq<char>>;

    /// The comprehension of `source`.
    fn resolve_source(&self, source: &ForSource, producers: &Vec<Producer>) -> (r: Result<
        Comprehension,
        String,
    >)
        ensures
            comp_outcome(r) == self.resolved(source@, producer_views(producers@)),
    ;

    /// How many tuples `c` has.
    fn reach_of(&self, c: &Comprehension) -> (r: Reach)
        ensures
            r == self.reach(algebra::comp_view(*c)),
    ;

    /// How the stream of `c` is written.
    fn stream_text(&self, text: &str, c: &Comprehension) -> (r: String)
        ensures
            r@ == self.streamed(text@, algebra::comp_view(*c)),
    ;

    /// The elements of `c` with their types.
    fn element_types(&self, c: &Comprehension, probed: &Vec<Result<PortType, String>>) -> (r:
        Result<Vec<(String, PortType)>, String>)
        ensures
            elements_outcome(r) == self.elements(algebra::comp_view(*c), probe_views(probed@)),
    ;

    /// The type of what `text` generates, taken by itself.
    fn probe_element_type(&self, text: &str) -> (r: Result<PortType, String>)
        ensures
            compiler::told(r) == self.probed(text@),
    ;

    /// How `e` prints.
    fn pp_expr(&self, e: &Expr) -> (r: String)
        ensures
            r@ == self.printed(e@),
    ;

    /// The node that converts between two types.
    fn auto_adapter(&self, from: PortType, to: PortType) -> (r: Option<NodeKind>)
        ensures
            maybe_kind(r) == self.adapter(from, to),
    ;

    /// How `e` is written.
    fn encoding_text(&self, e: &HoleEncoding) -> (r: String)
        ensures
            r@ == self.encoded(e@),
    ;

    /// How `s` is written.
    fn spec_text(&self, s: &TileSpec) -> (r: String)
        ensures
            r@ == self.written(s@),
    ;

    /// What is wrong with the program of a body.
    fn check_body(&self, source: &str) -> (r: Option<String>)
        ensures
            template::maybe(r) == self.body_fault(source@),
    ;
}

// ---------------------------------------------------------------------
// The state
// ---------------------------------------------------------------------

/// What does not change while a template is lowered.
#[verifier::ext_equal]
pub struct FrameV {
    pub tile: Seq<char>,
    pub encoding: Seq<char>,
    pub options: OptionsV,
    pub strict: bool,
    pub span: Span,
    pub producers: Seq<ProducerV>,
}

/// The content of the program of a body in the making.
#[verifier::ext_equal]
pub struct BodyV {
    pub elements: Seq<(Seq<char>, PortType)>,
    pub bindings: Seq<Seq<char>>,
    pub cascade: Seq<(Seq<char>, nat, Seq<char>)>,
    pub producers: Seq<Seq<char>>,
    pub names: Seq<Seq<char>>,
}

/// The content of the state.
#[verifier::ext_equal]
pub struct LowerV {
    pub c: CompilerV,
    pub inputs: Seq<Seq<char>>,
    pub children: Seq<ChildV>,
    pub names: Seq<Seq<char>>,
    pub in_string: bool,
    pub body: Option<BodyV>,
    pub events: Seq<EventV>,
}

/// What lowering holes leaves and says.
pub type SourceStep = (LowerV, Result<HoleSourceV, Seq<char>>);

/// What lowering pieces leaves and says.
pub type OpsStep = (LowerV, Result<Seq<OpV>, Seq<char>>);

// ---------------------------------------------------------------------
// Splicing
// ---------------------------------------------------------------------

/// The latest template of a name.
pub open spec fn tile_named(tiles: Seq<TileDefV>, name: Seq<char>) -> Option<TileDefV>
    decreases tiles.len(),
{
    if tiles.len() == 0 {
        None
    } else if tiles.last().name == name {
        Some(tiles.last())
    } else {
        tile_named(tiles.drop_last(), name)
    }
}

/// An encoding, plain text where none is given.
pub open spec fn encoding_or_text(e: Option<Seq<char>>) -> Seq<char> {
    match e {
        Some(s) => s,
        None => "text"@,
    }
}

/// The template that a hole names, if it does nothing else.
pub open spec fn spliced_tile(tiles: Seq<TileDefV>, h: HoleV) -> Option<TileDefV> {
    match h.expr {
        ExprV::Ident(name, _) => if h.decl_type is None && h.format is None {
            tile_named(tiles, name)
        } else {
            None
        },
        _ => None,
    }
}

/// A run of pieces with every hole that names an earlier template of the
/// same encoding replaced by the pieces of that template.
pub open spec fn spliced(
    tiles: Seq<TileDefV>,
    ps: Seq<PieceV>,
    current: Seq<char>,
    encoding: Seq<char>,
    depth: nat,
) -> Result<Seq<PieceV>, Seq<char>>
    decreases 17 - depth, ps.len(),
{
    if depth > 16 {
        Err("tile '"@ + current + "': splice nesting too deep; is there a cycle?"@)
    } else if ps.len() == 0 {
        Ok(Seq::empty())
    } else {
        match spliced(tiles, ps.drop_last(), current, encoding, depth) {
            Err(e) => Err(e),
            Ok(front) => match ps.last() {
                PieceV::Hole(h) => match spliced_tile(tiles, h) {
                    Some(other) => if other.name == current {
                        Err("tile '"@ + current + "' splices itself"@)
                    } else if encoding_or_text(other.encoding) == encoding {
                        match spliced(tiles, other.pieces, other.name, encoding, depth + 1) {
                            Err(e) => Err(e),
                            Ok(inner) => Ok(front + inner),
                        }
                    } else {
                        Ok(front.push(ps.last()))
                    },
                    None => Ok(front.push(ps.last())),
                },
                PieceV::Projection(source, sep, body, span) => match spliced(
                    tiles,
                    body,
                    current,
                    encoding,
                    depth + 1,
                ) {
                    Err(e) => Err(e),
                    Ok(inner) => Ok(front.push(PieceV::Projection(source, sep, inner, span))),
                },
                PieceV::Branch(cond, yes, otherwise, span) => match spliced(
                    tiles,
                    yes,
                    current,
                    encoding,
                    depth + 1,
                ) {
                    Err(e) => Err(e),
                    Ok(first) => match otherwise {
                        None => Ok(front.push(PieceV::Branch(cond, first, None, span))),
                        Some(no) => match spliced(tiles, no, current, encoding, depth + 1) {
                            Err(e) => Err(e),
                            Ok(last) => Ok(
                                front.push(PieceV::Branch(cond, first, Some(last), span)),
                            ),
                        },
                    },
                },
                PieceV::Static(_) => Ok(front.push(ps.last())),
            },
        }
    }
}

// ---------------------------------------------------------------------
// Types
// ---------------------------------------------------------------------

/// The type of an element.
pub open spec fn element_type(s: Seq<(Seq<char>, PortType)>, name: Seq<char>) -> Option<PortType>
    decreases s.len(),
{
    if s.len() == 0 {
        None
    } else {
        match element_type(s.drop_last(), name) {
            Some(t) => Some(t),
            None => if s.last().0 == name {
                Some(s.last().1)
            } else {
                None
            },
        }
    }
}

/// The type of an outer name that a body reads.
pub open spec fn cascade_type(s: Seq<(Seq<char>, nat, Seq<char>)>, name: Seq<char>) -> Option<
    Seq<char>,
>
    decreases s.len(),
{
    if s.len() == 0 {
        None
    } else {
        match cascade_type(s.drop_last(), name) {
            Some(t) => Some(t),
            None => if s.last().0 == name {
                Some(s.last().2)
            } else {
                None
            },
        }
    }
}

/// The type of the expression of a hole: that of an element or of an outer
/// name in a body, else what lowering takes it to be.
pub open spec fn hole_type<T: TileTools>(t: T, l: LowerV, e: ExprV) -> PortType {
    match e {
        ExprV::Ident(name, _) => match l.body {
            Some(b) => match element_type(b.elements, name) {
                Some(p) => p,
                None => match cascade_type(b.cascade, name) {
                    Some(kw) => binding::or_integer(value::port_of_keyword(kw)),
                    None => binding::inferred(t, l.c, e),
                },
            },
            None => binding::inferred(t, l.c, e),
        },
        _ => binding::inferred(t, l.c, e),
    }
}

/// The type of what a generator makes.
pub open spec fn generator_type<T: TileTools>(t: T, l: LowerV, text: Seq<char>) -> Result<
    PortType,
    Seq<char>,
> {
    match t.expression(text) {
        Ok(x) => Ok(hole_type(t, l, x.expr)),
        Err(_) => t.probed(text),
    }
}

/// The types of what a run of generators makes.
pub open spec fn generator_types<T: TileTools>(
    t: T,
    l: LowerV,
    gens: Seq<(Seq<char>, Seq<char>)>,
) -> Seq<Result<PortType, Seq<char>>> {
    Seq::new(gens.len(), |i: int| generator_type(t, l, gens[i].1))
}

/// Whether a value of the type has no text.
pub open spec fn textless(t: PortType) -> bool {
    t == PortType::Ext || t == PortType::Handle || t == PortType::Reg128 || t == PortType::RegI8x16
        || t == PortType::RegI16x8 || t == PortType::RegI32x4 || t == PortType::RegI64x2 || t
        == PortType::RegF16x8 || t == PortType::RegF32x4 || t == PortType::RegF64x2
}

/// Whether a value of the type is a number.
pub open spec fn numeric(t: PortType) -> bool {
    t == PortType::U64 || t == PortType::I64 || t == PortType::F64 || t == PortType::U32 || t
        == PortType::I32 || t == PortType::F32 || t == PortType::U16 || t == PortType::I16 || t
        == PortType::U8 || t == PortType::I8 || t == PortType::F16 || t == PortType::U128 || t
        == PortType::I128
}

/// How a hole was typed.
#[verifier::ext_equal]
pub struct TypingV {
    pub wire: PortType,
    pub declared: Option<PortType>,
    pub effective: PortType,
    pub adapter: Option<(PortType, PortType)>,
    pub expectation: Seq<char>,
}

/// What is expected of a hole.
pub open spec fn expected(encoding: Seq<char>, position: HolePosition, cond: bool) -> Seq<char> {
    if cond {
        "a truth value"@
    } else if encoding == "json"@ && position == HolePosition::Value {
        "any JSON value"@
    } else if encoding == "json"@ && position == HolePosition::InString {
        "text inside a JSON string"@
    } else if encoding == "csv"@ {
        "a CSV field"@
    } else {
        "text"@
    }
}

/// A message on a hole.
pub open spec fn hole_message(f: FrameV, text: Seq<char>, e: Seq<char>) -> Seq<char> {
    "tile '"@ + f.tile + "': hole `"@ + text + "`: "@ + e
}

/// How a hole is typed: the declared type stands where the wire can be
/// converted to it, else that of the wire.
pub open spec fn typing<T: TileTools>(
    t: T,
    f: FrameV,
    text: Seq<char>,
    wire: PortType,
    declared: Option<Seq<char>>,
    position: HolePosition,
    cond: bool,
) -> Result<TypingV, Seq<char>> {
    let plain = TypingV {
        wire,
        declared: None,
        effective: wire,
        adapter: None,
        expectation: expected(f.encoding, position, cond),
    };
    if textless(wire) {
        Err(
            hole_message(
                f,
                text,
                "a "@ + value::port_keyword(wire)
                    + " wire has no text form and cannot fill a hole"@,
            ),
        )
    } else {
        match declared {
            None => Ok(plain),
            Some(kw) => match value::port_of_keyword(kw) {
                None => Err(hole_message(f, text, "unknown type '"@ + kw + "'"@)),
                Some(to) => if to == wire {
                    Ok(TypingV { declared: Some(to), ..plain })
                } else if t.adapter(wire, to) is None {
                    Err(
                        hole_message(
                            f,
                            text,
                            "no conversion from the wire type "@ + value::port_keyword(wire)
                                + " to the declared type "@ + value::port_keyword(to)
                                + "; write the conversion explicitly in the expression"@,
                        ),
                    )
                } else if f.strict {
                    Err(
                        hole_message(
                            f,
                            text,
                            "strict mode rejects the implicit "@ + value::port_keyword(wire)
                                + " -> "@ + value::port_keyword(to)
                                + " adapter the declaration needs; write the conversion explicitly in the expression"@,
                        ),
                    )
                } else {
                    Ok(
                        TypingV {
                            declared: Some(to),
                            effective: to,
                            adapter: Some((wire, to)),
                            ..plain
                        },
                    )
                },
            },
        }
    }
}

/// What writes the value of a hole.
pub open spec fn encoder(enc: EncodingV, effective: PortType) -> Seq<char> {
    let base = if enc.cond {
        "truth value as 1 or 0"@
    } else if enc.raw {
        "raw text, no escaping"@
    } else if enc.encoding == "json"@ && enc.position == HolePosition::Value {
        if effective == PortType::Bool {
            "json boolean"@
        } else if effective == PortType::Json {
            "json value, serialized"@
        } else if numeric(effective) {
            "json number"@
        } else {
            "json string, quoted and escaped"@
        }
    } else if enc.encoding == "json"@ && enc.position == HolePosition::InString {
        "json escaped text"@
    } else if enc.encoding == "csv"@ {
        "csv field, quoted when needed"@
    } else {
        "display text"@
    };
    match enc.format {
        Some(fmt) => base + ", format "@ + fmt,
        None => base,
    }
}

/// The report on the typing of a hole.
pub open spec fn typed_event(f: FrameV, text: Seq<char>, ty: TypingV, enc: EncodingV) -> EventV {
    EventV::TileHoleTyped(
        TypedV {
            tile: f.tile,
            hole: text,
            wire_type: value::port_keyword(ty.wire),
            declared: match ty.declared {
                Some(t) => Some(value::port_keyword(t)),
                None => None,
            },
            expectation: ty.expectation + " ("@ + value::port_keyword(ty.effective) + ")"@,
            encoder: encoder(enc, ty.effective),
            adapter: match ty.adapter {
                Some((from, to)) => Some(
                    value::port_keyword(from) + " -> "@ + value::port_keyword(to),
                ),
                None => None,
            },
        },
    )
}

// ---------------------------------------------------------------------
// Holes
// ---------------------------------------------------------------------

/// The place of a name from `i` on, the end where it is not there.
pub open spec fn place_in(s: Seq<Seq<char>>, name: Seq<char>, i: int) -> int
    decreases s.len() - i,
{
    if i >= s.len() || s[i] == name {
        i
    } else {
        place_in(s, name, i + 1)
    }
}

/// The inputs with one more, where it is not there yet.
pub open spec fn with_input(s: Seq<Seq<char>>, name: Seq<char>) -> Seq<Seq<char>> {
    if place_in(s, name, 0) < s.len() {
        s
    } else {
        s.push(name)
    }
}

/// The next name that is made up for a hole or a generator.
pub open spec fn next_name(f: FrameV, l: LowerV, kind: Seq<char>) -> Seq<char> {
    "__tile_"@ + f.tile + "_"@ + kind + chars::decimal(l.names.len())
}

/// The state after that name was made up.
pub open spec fn took(f: FrameV, l: LowerV, kind: Seq<char>) -> LowerV {
    LowerV { names: l.names.push(next_name(f, l, kind)), ..l }
}

/// Where a hole stands.
pub open spec fn position_of(f: FrameV, l: LowerV) -> HolePosition {
    if f.encoding != "json"@ {
        HolePosition::Text
    } else if l.in_string {
        HolePosition::InString
    } else {
        HolePosition::Value
    }
}

/// Whether text from `i` on ends inside a string, `inside` at `i`, with the
/// character at `i` escaped where `escaped` holds.
pub open spec fn string_state(s: Seq<char>, i: int, inside: bool, escaped: bool) -> bool
    decreases s.len() - i,
{
    if i < 0 || i >= s.len() {
        inside
    } else if inside {
        if escaped {
            string_state(s, i + 1, true, false)
        } else if s[i] == '\\' {
            string_state(s, i + 1, true, true)
        } else if s[i] == '"' {
            string_state(s, i + 1, false, false)
        } else {
            string_state(s, i + 1, true, false)
        }
    } else {
        string_state(s, i + 1, s[i] == '"', escaped)
    }
}

/// The call that encodes the value of a hole.
pub open spec fn encode_call_of<T: TileTools>(t: T, e: ExprV, enc: EncodingV, span: Span) -> ExprV {
    ExprV::Call(
        "tile_encode"@,
        seq![
            ArgV { name: None, value: e },
            ArgV { name: None, value: ExprV::StringLit(t.encoded(enc), span) },
        ],
        span,
    )
}

/// The encoding of a hole with the type it was given.
pub open spec fn settled(enc: EncodingV, ty: TypingV) -> EncodingV {
    EncodingV { ty: Some(value::port_keyword(ty.effective)), ..enc }
}

/// Binds `name` to the encoded `e` and hands it to the template.
pub open spec fn encoded_hole<T: TileTools>(
    t: T,
    f: FrameV,
    l: LowerV,
    name: Seq<char>,
    text: Seq<char>,
    e: ExprV,
    ty: TypingV,
    enc: EncodingV,
) -> SourceStep {
    let (c, r) = binding::bound(t, l.c, seq![name], encode_call_of(t, e, enc, f.span));
    match r {
        Err(x) => (LowerV { c, ..l }, Err(hole_message(f, text, x))),
        Ok(_) => (
            LowerV {
                c,
                inputs: with_input(l.inputs, name),
                events: l.events.push(typed_event(f, text, ty, enc)),
                ..l
            },
            Ok(HoleSourceV::Wire(place_in(l.inputs, name, 0) as nat)),
        ),
    }
}

/// Lowers a hole outside any body.
pub open spec fn wire_hole_lowered<T: TileTools>(
    t: T,
    f: FrameV,
    l: LowerV,
    text: Seq<char>,
    e: ExprV,
    enc: EncodingV,
) -> SourceStep {
    match typing(t, f, text, hole_type(t, l, e), enc.ty, enc.position, enc.cond) {
        Err(x) => (l, Err(x)),
        Ok(ty) => {
            let name = next_name(f, l, "h"@);
            let l1 = took(f, l, "h"@);
            match ty.adapter {
                None => encoded_hole(t, f, l1, name, text, e, ty, settled(enc, ty)),
                Some((from, to)) => {
                    let (c, r) = binding::bound(t, l1.c, seq![name + "_v"@], e);
                    match r {
                        Err(x) => (LowerV { c, ..l1 }, Err(hole_message(f, text, x))),
                        Ok(_) => match t.adapter(from, to) {
                            None => (LowerV { c, ..l1 }, Err(Seq::empty())),
                            Some(kind) => encoded_hole(
                                t,
                                f,
                                LowerV {
                                    c: c.bind_node(
                                        name + "_a"@,
                                        kind,
                                        seq![WireV::Node(name + "_v"@, 0)],
                                    ),
                                    ..l1
                                },
                                name,
                                text,
                                ExprV::Ident(name + "_a"@, f.span),
                                ty,
                                settled(enc, ty),
                            ),
                        },
                    }
                },
            }
        },
    }
}

/// Makes an outer name available in a body, unless the body defines it or
/// the outer program does not.
pub open spec fn cascaded_ref(l: LowerV, r: Seq<char>) -> LowerV {
    match l.body {
        None => l,
        Some(b) => if element_type(b.elements, r) is Some || cascade_type(b.cascade, r) is Some
            || b.producers.contains(r) {
            l
        } else {
            match compile::or_else(l.c.graph.output_type(r), l.c.graph.input_type(r)) {
                None => l,
                Some(ty) => LowerV {
                    inputs: with_input(l.inputs, r),
                    body: Some(
                        BodyV {
                            cascade: b.cascade.push(
                                (r, place_in(l.inputs, r, 0) as nat, value::port_keyword(ty)),
                            ),
                            ..b
                        },
                    ),
                    ..l
                },
            }
        },
    }
}

/// Makes outer names available in a body.
pub open spec fn cascaded(l: LowerV, names: Seq<Seq<char>>) -> LowerV
    decreases names.len(),
{
    if names.len() == 0 {
        l
    } else {
        cascaded_ref(cascaded(l, names.drop_last()), names.last())
    }
}

/// The state with one more line in the program of the body.
pub open spec fn with_line(l: LowerV, line: Seq<char>) -> LowerV {
    match l.body {
        None => l,
        Some(b) => LowerV { body: Some(BodyV { bindings: b.bindings.push(line), ..b }), ..l },
    }
}

/// The next name that is made up in the program of a body.
pub open spec fn body_name(l: LowerV) -> Seq<char> {
    match l.body {
        None => Seq::empty(),
        Some(b) => "__b"@ + chars::decimal(b.names.len()),
    }
}

/// The state after that name was made up.
pub open spec fn took_body(l: LowerV) -> LowerV {
    match l.body {
        None => l,
        Some(b) => LowerV {
            body: Some(BodyV { names: b.names.push(body_name(l)), ..b }),
            ..l
        },
    }
}

/// What is encoded in a body for a hole that asks for a conversion.
pub open spec fn body_value(
    f: FrameV,
    text: Seq<char>,
    e: ExprV,
    adapter: Option<(PortType, PortType)>,
) -> Result<ExprV, Seq<char>> {
    match adapter {
        None => Ok(e),
        Some((from, to)) => if from == PortType::U64 && to == PortType::F64 {
            Ok(ExprV::Cast(Box::new(e), PortType::F64, f.span))
        } else if to == PortType::Str || to == PortType::Bool {
            Ok(e)
        } else {
            Err(
                hole_message(
                    f,
                    text,
                    "the "@ + value::port_keyword(from) + " -> "@ + value::port_keyword(to)
                        + " adapter is not supported inside a projection body yet; write the conversion explicitly in the expression"@,
                ),
            )
        },
    }
}

/// Lowers a hole of a body.
pub open spec fn body_hole_lowered<T: TileTools>(
    t: T,
    f: FrameV,
    l: LowerV,
    text: Seq<char>,
    e: ExprV,
    enc: EncodingV,
) -> SourceStep {
    let l1 = cascaded(l, refs::sorted(refs::references(e)));
    match typing(t, f, text, hole_type(t, l1, e), enc.ty, enc.position, enc.cond) {
        Err(x) => (l1, Err(x)),
        Ok(ty) => match body_value(f, text, e, ty.adapter) {
            Err(x) => (l1, Err(x)),
            Ok(v) => {
                let name = body_name(l1);
                let enc = settled(enc, ty);
                let l2 = with_line(
                    took_body(l1),
                    name + " := "@ + t.printed(encode_call_of(t, v, enc, f.span)),
                );
                (
                    LowerV { events: l2.events.push(typed_event(f, text, ty, enc)), ..l2 },
                    Ok(HoleSourceV::Child(name)),
                )
            },
        },
    }
}

/// Lowers a hole, of the body where there is one.
pub open spec fn hole_lowered<T: TileTools>(
    t: T,
    f: FrameV,
    l: LowerV,
    text: Seq<char>,
    e: ExprV,
    enc: EncodingV,
) -> SourceStep {
    if l.body is Some {
        body_hole_lowered(t, f, l, text, e, enc)
    } else {
        wire_hole_lowered(t, f, l, text, e, enc)
    }
}

// ---------------------------------------------------------------------
// Sources
// ---------------------------------------------------------------------

/// Whether a projection may run over a comprehension.
pub open spec fn bounded<T: TileTools>(t: T, f: FrameV, c: CompV, text: Seq<char>) -> Result<
    (),
    Seq<char>,
> {
    match t.reach(c) {
        Reach::Bounded => Ok(()),
        Reach::Unbounded => if tile_source::unhinted(c) {
            Ok(())
        } else {
            Err(
                "tile '"@ + f.tile + "': projection `for "@ + text
                    + "` has unbounded cardinality; a projection renders once per tuple and needs a finite source"@,
            )
        },
        Reach::Continuous => Err(
            "tile '"@ + f.tile + "': projection `for "@ + text
                + "` ranges over a continuous source, which has no finite tuple set; project over a discrete range or list, or over values sampled by an expression"@,
        ),
    }
}

/// The names in braces of a run of texts.
pub open spec fn all_placeholders(texts: Seq<Seq<char>>) -> Seq<Seq<char>>
    decreases texts.len(),
{
    if texts.len() == 0 {
        Seq::empty()
    } else {
        all_placeholders(texts.drop_last()) + tile_source::placeholders(texts.last(), 0)
    }
}

/// The first name from `i` on that is not among `known`.
pub open spec fn first_outside(s: Seq<Seq<char>>, known: Seq<Seq<char>>, i: int) -> Option<
    Seq<char>,
>
    decreases s.len() - i,
{
    if i < 0 || i >= s.len() {
        None
    } else if !known.contains(s[i]) {
        Some(s[i])
    } else {
        first_outside(s, known, i + 1)
    }
}

/// Whether the conditions name nothing but elements.
pub open spec fn predicates_ok(f: FrameV, c: CompV, text: Seq<char>) -> Result<(), Seq<char>> {
    match first_outside(
        all_placeholders(tile_source::predicates(c)),
        tile_source::element_names(c),
        0,
    ) {
        None => Ok(()),
        Some(name) => Err(
            "tile '"@ + f.tile + "': projection `for "@ + text + "`: predicate placeholder `{"@
                + name
                + "}` names a wire outside the comprehension; a projection's predicate sees only its elements"@,
        ),
    }
}

/// The latest producer of a name.
pub open spec fn producer_named(s: Seq<ProducerV>, name: Seq<char>) -> Option<ProducerV>
    decreases s.len(),
{
    if s.len() == 0 {
        None
    } else if s.last().name == name {
        Some(s.last())
    } else {
        producer_named(s.drop_last(), name)
    }
}

/// The names that the expressions of a run of generators refer to.
pub open spec fn generator_refs<T: TileTools>(t: T, gens: Seq<(Seq<char>, Seq<char>)>) -> Seq<
    Seq<char>,
>
    decreases gens.len(),
{
    if gens.len() == 0 {
        Seq::empty()
    } else {
        generator_refs(t, gens.drop_last()) + (match t.expression(gens.last().1) {
            Ok(x) => refs::references(x.expr),
            Err(_) => Seq::empty(),
        })
    }
}

/// The names that a piece refers to.
pub open spec fn piece_refs<T: TileTools>(t: T, producers: Seq<ProducerV>, p: PieceV) -> Seq<
    Seq<char>,
>
    decreases p, 0nat,
{
    match p {
        PieceV::Static(_) => Seq::empty(),
        PieceV::Hole(h) => refs::references(h.expr),
        PieceV::Branch(cond, yes, otherwise, _) => refs::references(cond.expr) + pieces_refs(
            t,
            producers,
            yes,
        ) + (match otherwise {
            Some(no) => pieces_refs(t, producers, no),
            None => Seq::empty(),
        }),
        PieceV::Projection(source, _, body, _) => tile_source::placeholders(source.text, 0) + (
        match source.producer {
            Some(n) => seq![n],
            None => Seq::empty(),
        }) + (match t.resolved(source, producers) {
            Ok(c) => generator_refs(t, tile_source::generators(c)),
            Err(_) => Seq::empty(),
        }) + pieces_refs(t, producers, body),
    }
}

/// The names that a run of pieces refers to.
pub open spec fn pieces_refs<T: TileTools>(t: T, producers: Seq<ProducerV>, s: Seq<PieceV>) -> Seq<
    Seq<char>,
>
    decreases s, s.len(),
{
    if s.len() == 0 {
        Seq::empty()
    } else {
        pieces_refs(t, producers, s.drop_last()) + piece_refs(t, producers, s.last())
    }
}

/// The names that are no elements.
pub open spec fn not_elements(
    names: Seq<Seq<char>>,
    elements: Seq<(Seq<char>, PortType)>,
) -> Seq<Seq<char>> {
    names.filter(|n: Seq<char>| element_type(elements, n) is None)
}

/// Makes what the expressions of a run of generators refer to available in
/// a body.
pub open spec fn cascaded_generators<T: TileTools>(
    t: T,
    l: LowerV,
    gens: Seq<(Seq<char>, Seq<char>)>,
) -> LowerV
    decreases gens.len(),
{
    if gens.len() == 0 {
        l
    } else {
        let front = cascaded_generators(t, l, gens.drop_last());
        match t.expression(gens.last().1) {
            Ok(x) => cascaded(front, refs::sorted(refs::references(x.expr))),
            Err(_) => front,
        }
    }
}

/// Binds the producer that a source names again in the program of a body.
pub open spec fn rebound(f: FrameV, l: LowerV, source: ForSourceV) -> (
    LowerV,
    Result<(), Seq<char>>,
) {
    match source.producer {
        None => (l, Ok(())),
        Some(name) => if l.body is Some && l.body->0.producers.contains(name) {
            (l, Ok(()))
        } else {
            match producer_named(f.producers, name) {
                None => (
                    l,
                    Err(
                        "tile '"@ + f.tile + "': producer '"@ + name
                            + "' is not bound before this tile"@,
                    ),
                ),
                Some(p) => {
                    let l1 = cascaded(l, tile_source::placeholders(p.source_text, 0));
                    let l2 = match l1.body {
                        None => l1,
                        Some(b) => LowerV {
                            body: Some(BodyV { producers: b.producers.push(name), ..b }),
                            ..l1
                        },
                    };
                    (with_line(l2, name + " := for "@ + p.source_text), Ok(()))
                },
            }
        },
    }
}

/// The options of a template that are not the usual ones, as they are
/// written.
pub open spec fn option_parts(f: FrameV) -> Seq<Seq<char>> {
    let usual = template::default_options();
    let o = f.options;
    (if o.open != usual.open || o.close != usual.close {
        seq![
            "delims \""@ + tile_source::string_chars(o.open) + "\" \""@ + tile_source::string_chars(
                o.close,
            ) + "\""@,
        ]
    } else {
        Seq::empty()
    }) + (if o.sigil != usual.sigil {
        seq!["sigil \""@ + tile_source::string_chars(o.sigil) + "\""@]
    } else {
        Seq::empty()
    }) + (if f.strict {
        seq!["strict"@]
    } else {
        Seq::empty()
    })
}

/// The options of a template in brackets, nothing where they are the usual
/// ones.
pub open spec fn options_text(f: FrameV) -> Seq<char> {
    if option_parts(f).len() == 0 {
        Seq::empty()
    } else {
        " ("@ + chars::joined(option_parts(f), ", "@) + ")"@
    }
}

/// The line that binds a nested template.
pub open spec fn nested_line(f: FrameV, name: Seq<char>, text: Seq<char>) -> Seq<char> {
    "tile "@ + name + " : "@ + f.encoding + options_text(f) + " := \""@ + tile_source::string_chars(
        text,
    ) + "\""@
}

/// Lowers a projection inside a body: a template of its own in the program
/// of the body.
pub open spec fn nested_lowered<T: TileTools>(
    t: T,
    f: FrameV,
    l: LowerV,
    source: ForSourceV,
    sep: Option<Seq<char>>,
    body: Seq<PieceV>,
) -> (LowerV, Result<OpV, Seq<char>>) {
    if l.in_string {
        (
            l,
            Err(
                "tile '"@ + f.tile
                    + "': a nested projection inside a string position is not supported yet; project the inner text into a wire of its own and reference it"@,
            ),
        )
    } else {
        match t.resolved(source, f.producers) {
            Err(e) => (l, Err("tile '"@ + f.tile + "': nested projection: "@ + e)),
            Ok(c) => match bounded(t, f, c, source.text) {
                Err(e) => (l, Err(e)),
                Ok(_) => match predicates_ok(f, c, source.text) {
                    Err(e) => (l, Err(e)),
                    Ok(_) => {
                        let gens = tile_source::generators(c);
                        match t.elements(c, generator_types(t, l, gens)) {
                            Err(e) => (
                                l,
                                Err(
                                    "tile '"@ + f.tile + "': nested projection `for "@
                                        + source.text + "`: "@ + e,
                                ),
                            ),
                            Ok(elements) => {
                                let (l1, r) = rebound(f, cascaded_generators(t, l, gens), source);
                                match r {
                                    Err(e) => (l1, Err(e)),
                                    Ok(_) => {
                                        let l2 = cascaded(
                                            cascaded(l1, tile_source::placeholders(source.text, 0)),
                                            not_elements(
                                                refs::sorted(pieces_refs(t, f.producers, body)),
                                                elements,
                                            ),
                                        );
                                        let text = tile::rendered_piece(
                                            PieceV::Projection(source, sep, body, f.span),
                                            f.options,
                                        );
                                        let name = body_name(l2);
                                        (
                                            with_line(took_body(l2), nested_line(f, name, text)),
                                            Ok(OpV::Hole(HoleSourceV::Child(name))),
                                        )
                                    },
                                }
                            },
                        }
                    },
                },
            },
        }
    }
}

/// A message on a generator.
pub open spec fn generator_message(f: FrameV, text: Seq<char>, expr: Seq<char>, e: Seq<char>) -> Seq<
    char,
> {
    "tile '"@ + f.tile + "': projection `for "@ + text + "`: generator `"@ + expr + "`"@ + e
}

/// Lowers the generators of a source from `i` on: each becomes a wire.
pub open spec fn generators_lowered<T: TileTools>(
    t: T,
    f: FrameV,
    l: LowerV,
    text: Seq<char>,
    elements: Seq<(Seq<char>, PortType)>,
    gens: Seq<(Seq<char>, Seq<char>)>,
    i: int,
    out: Seq<(Seq<char>, nat, Seq<char>)>,
) -> (LowerV, Result<Seq<(Seq<char>, nat, Seq<char>)>, Seq<char>>)
    decreases gens.len() - i,
{
    if i < 0 || i >= gens.len() {
        (l, Ok(out))
    } else {
        let (name, expr) = gens[i];
        if expr.contains('{') {
            (
                l,
                Err(
                    generator_message(
                        f,
                        text,
                        expr,
                        " uses a `{name}` placeholder; in a tile the generator is an expression over the scope's wires, so name the wire directly"@,
                    ),
                ),
            )
        } else {
            match t.expression(expr) {
                Err(e) => (l, Err(generator_message(f, text, expr, ": "@ + e))),
                Ok(x) => {
                    let wire = next_name(f, l, "g"@);
                    let l1 = took(f, l, "g"@);
                    let (c, r) = binding::bound(t, l1.c, seq![wire], x.expr);
                    match r {
                        Err(e) => (
                            LowerV { c, ..l1 },
                            Err(generator_message(f, text, expr, ": "@ + e)),
                        ),
                        Ok(_) => generators_lowered(
                            t,
                            f,
                            LowerV { c, inputs: with_input(l1.inputs, wire), ..l1 },
                            text,
                            elements,
                            gens,
                            i + 1,
                            out.push(
                                (
                                    name,
                                    place_in(l1.inputs, wire, 0) as nat,
                                    match element_type(elements, name) {
                                        Some(ty) => value::port_keyword(ty),
                                        None => "str"@,
                                    },
                                ),
                            ),
                        ),
                    }
                },
            }
        }
    }
}

/// The lines that declare the elements of a body.
pub open spec fn element_lines(s: Seq<(Seq<char>, PortType)>) -> Seq<char>
    decreases s.len(),
{
    if s.len() == 0 {
        Seq::empty()
    } else {
        element_lines(s.drop_last()) + "extern "@ + s.last().0 + ": "@ + value::port_keyword(
            s.last().1,
        ) + "\n"@
    }
}

/// The lines that declare the outer names that a body reads.
pub open spec fn cascade_lines(s: Seq<(Seq<char>, nat, Seq<char>)>) -> Seq<char>
    decreases s.len(),
{
    if s.len() == 0 {
        Seq::empty()
    } else {
        cascade_lines(s.drop_last()) + "extern "@ + s.last().0 + ": "@ + s.last().2 + "\n"@
    }
}

/// Lines, each with its end.
pub open spec fn lines(s: Seq<Seq<char>>) -> Seq<char>
    decreases s.len(),
{
    if s.len() == 0 {
        Seq::empty()
    } else {
        lines(s.drop_last()) + s.last() + "\n"@
    }
}

/// The program of a body.
pub open spec fn program(b: BodyV) -> Seq<char> {
    "input __tuple: u64\n"@ + element_lines(b.elements) + cascade_lines(b.cascade) + lines(
        b.bindings,
    )
}

/// A body that has only its elements.
pub open spec fn new_body(elements: Seq<(Seq<char>, PortType)>) -> BodyV {
    BodyV {
        elements,
        bindings: Seq::empty(),
        cascade: Seq::empty(),
        producers: Seq::empty(),
        names: Seq::empty(),
    }
}

/// What stands between two tuples where the template does not say.
pub open spec fn usual_sep(encoding: Seq<char>) -> Seq<char> {
    if encoding == "json"@ || encoding == "csv"@ {
        ","@
    } else {
        ""@
    }
}

/// Lowers a projection outside any body.
pub open spec fn projection_lowered<T: TileTools>(
    t: T,
    f: FrameV,
    l: LowerV,
    source: ForSourceV,
    sep: Option<Seq<char>>,
    body: Seq<PieceV>,
) -> (LowerV, Result<OpV, Seq<char>>)
    decreases body, body.len() + 10,
{
    match t.resolved(source, f.producers) {
        Err(e) => (l, Err("tile '"@ + f.tile + "': projection: "@ + e)),
        Ok(c) => match bounded(t, f, c, source.text) {
            Err(e) => (l, Err(e)),
            Ok(_) => match predicates_ok(f, c, source.text) {
                Err(e) => (l, Err(e)),
                Ok(_) => {
                    let gens = tile_source::generators(c);
                    match t.elements(c, generator_types(t, l, gens)) {
                        Err(e) => (
                            l,
                            Err(
                                "tile '"@ + f.tile + "': projection `for "@ + source.text + "`: "@
                                    + e,
                            ),
                        ),
                        Ok(elements) => {
                            let (l1, r) = generators_lowered(
                                t,
                                f,
                                l,
                                source.text,
                                elements,
                                gens,
                                0,
                                Seq::empty(),
                            );
                            match r {
                                Err(e) => (l1, Err(e)),
                                Ok(generators) => {
                                    let (l2, r) = pieces_lowered(
                                        t,
                                        f,
                                        LowerV { body: Some(new_body(elements)), ..l1 },
                                        body,
                                        0,
                                        Seq::empty(),
                                        Seq::empty(),
                                    );
                                    match r {
                                        Err(e) => (l2, Err(e)),
                                        Ok(ops) => projection_closed(
                                            t,
                                            f,
                                            LowerV { in_string: l1.in_string, ..l2 },
                                            sep,
                                            t.streamed(source.text, c),
                                            generators,
                                            ops,
                                        ),
                                    }
                                },
                            }
                        },
                    }
                },
            },
        },
    }
}

/// Closes the body of a projection.
pub open spec fn projection_closed<T: TileTools>(
    t: T,
    f: FrameV,
    l: LowerV,
    sep: Option<Seq<char>>,
    stream: Seq<char>,
    generators: Seq<(Seq<char>, nat, Seq<char>)>,
    ops: Seq<OpV>,
) -> (LowerV, Result<OpV, Seq<char>>) {
    match l.body {
        None => (l, Err(Seq::empty())),
        Some(b) => {
            let l1 = LowerV { body: None, ..l };
            match t.body_fault(program(b)) {
                Some(e) => (l1, Err("tile '"@ + f.tile + "': projection body: "@ + e)),
                None => (
                    LowerV {
                        children: l.children.push(
                            ChildV { source: program(b), cascade: b.cascade },
                        ),
                        ..l1
                    },
                    Ok(
                        OpV::Repeat(
                            RepeatV {
                                stream,
                                child: l.children.len(),
                                sep: match sep {
                                    Some(s) => s,
                                    None => usual_sep(f.encoding),
                                },
                                generators,
                            },
                            ops,
                        ),
                    ),
                ),
            }
        },
    }
}

/// The steps with the text that was gathered, where it is not empty.
pub open spec fn with_text(ops: Seq<OpV>, buf: Seq<char>) -> Seq<OpV> {
    if buf.len() == 0 {
        ops
    } else {
        ops.push(OpV::Static(buf))
    }
}

/// The encoding of a hole of a template.
pub open spec fn hole_encoding(f: FrameV, l: LowerV, h: HoleV) -> EncodingV {
    EncodingV {
        encoding: f.encoding,
        position: position_of(f, l),
        ty: h.decl_type,
        format: h.format,
        raw: h.raw,
        cond: false,
    }
}

/// The encoding of the condition of a branch.
pub open spec fn cond_encoding(f: FrameV) -> EncodingV {
    EncodingV {
        encoding: f.encoding,
        position: HolePosition::Text,
        ty: None,
        format: None,
        raw: true,
        cond: true,
    }
}

/// Lowers the pieces from `i` on; `buf` is the text that was gathered, `ops`
/// the steps so far.
pub open spec fn pieces_lowered<T: TileTools>(
    t: T,
    f: FrameV,
    l: LowerV,
    ps: Seq<PieceV>,
    i: int,
    buf: Seq<char>,
    ops: Seq<OpV>,
) -> OpsStep
    decreases
            ps,
            if 0 <= i < ps.len() {
                (ps.len() - i + 2) as nat
            } else {
                2nat
            },
{
    if i < 0 || i >= ps.len() {
        (l, Ok(with_text(ops, buf)))
    } else {
        proof {
            assert(decreases_to!(ps => ps[i]));
        }
        match ps[i] {
            PieceV::Static(s) => pieces_lowered(
                t,
                f,
                if f.encoding == "json"@ {
                    LowerV { in_string: string_state(s, 0, l.in_string, false), ..l }
                } else {
                    l
                },
                ps,
                i + 1,
                buf + s,
                ops,
            ),
            PieceV::Hole(h) => {
                let (l1, r) = hole_lowered(t, f, l, h.text, h.expr, hole_encoding(f, l, h));
                match r {
                    Err(e) => (l1, Err(e)),
                    Ok(x) => pieces_lowered(
                        t,
                        f,
                        l1,
                        ps,
                        i + 1,
                        Seq::empty(),
                        with_text(ops, buf).push(OpV::Hole(x)),
                    ),
                }
            },
            PieceV::Branch(cond, yes, otherwise, span) => {
                let (l1, r) = branch_lowered(t, f, l, cond, yes, otherwise, span);
                match r {
                    Err(e) => (l1, Err(e)),
                    Ok(op) => pieces_lowered(
                        t,
                        f,
                        l1,
                        ps,
                        i + 1,
                        Seq::empty(),
                        with_text(ops, buf).push(op),
                    ),
                }
            },
            PieceV::Projection(source, sep, body, _) => {
                let (l1, r) = if l.body is Some {
                    nested_lowered(t, f, l, source, sep, body)
                } else {
                    projection_lowered(t, f, l, source, sep, body)
                };
                match r {
                    Err(e) => (l1, Err(e)),
                    Ok(op) => pieces_lowered(
                        t,
                        f,
                        l1,
                        ps,
                        i + 1,
                        Seq::empty(),
                        with_text(ops, buf).push(op),
                    ),
                }
            },
        }
    }
}

/// Lowers a branch.
pub open spec fn branch_lowered<T: TileTools>(
    t: T,
    f: FrameV,
    l: LowerV,
    cond: ReadingV,
    yes: Seq<PieceV>,
    otherwise: Option<Seq<PieceV>>,
    span: Span,
) -> (LowerV, Result<OpV, Seq<char>>)
    decreases PieceV::Branch(cond, yes, otherwise, span), 1nat,
{
    let p = PieceV::Branch(cond, yes, otherwise, span);
    proof {
        assert(decreases_to!(p => p->Branch_1));
        assert(decreases_to!(p => p->Branch_2));
    }
    let (l1, r) = hole_lowered(t, f, l, "if "@ + cond.shown, cond.expr, cond_encoding(f));
    match r {
        Err(e) => (l1, Err(e)),
        Ok(x) => {
            let (l2, r) = pieces_lowered(t, f, l1, yes, 0, Seq::empty(), Seq::empty());
            match r {
                Err(e) => (l2, Err(e)),
                Ok(first) => {
                    let l3 = LowerV { in_string: l1.in_string, ..l2 };
                    match otherwise {
                        None => (l3, Ok(OpV::Branch(x, first, Seq::empty()))),
                        Some(no) => {
                            let (l4, r) = pieces_lowered(
                                t,
                                f,
                                l3,
                                no,
                                0,
                                Seq::empty(),
                                Seq::empty(),
                            );
                            match r {
                                Err(e) => (l4, Err(e)),
                                Ok(last) => (
                                    LowerV { in_string: l1.in_string, ..l4 },
                                    Ok(OpV::Branch(x, first, last)),
                                ),
                            }
                        },
                    }
                },
            }
        },
    }
}

// ---------------------------------------------------------------------
// Splicing, done
// ---------------------------------------------------------------------

/// The content of the outcome of a run of pieces.
pub open spec fn pieces_outcome(r: Result<Vec<TilePiece>, String>) -> Result<
    Seq<PieceV>,
    Seq<char>,
> {
    match r {
        Ok(v) => Ok(template::piece_views(v@)),
        Err(e) => Err(e@),
    }
}

/// An error on the way is the error of the whole.
proof fn lemma_splice_stop(
    tiles: Seq<TileDefV>,
    ps: Seq<PieceV>,
    current: Seq<char>,
    encoding: Seq<char>,
    depth: nat,
    k: int,
)
    requires
        0 <= k <= ps.len(),
        spliced(tiles, ps.take(k), current, encoding, depth) is Err,
    ensures
        spliced(tiles, ps, current, encoding, depth) == spliced(
            tiles,
            ps.take(k),
            current,
            encoding,
            depth,
        ),
    decreases ps.len(),
{
    if k == ps.len() {
        assert(ps.take(k) =~= ps);
    } else {
        assert(ps.drop_last().take(k) =~= ps.take(k));
        lemma_splice_stop(tiles, ps.drop_last(), current, encoding, depth, k);
    }
}

/// The latest template `name`.
fn find_tile<'a>(tiles: &'a Vec<TileDef>, name: &str) -> (r: Option<&'a TileDef>)
    ensures
        match r {
            Some(t) => tile_named(template::tile_views(tiles@), name@) == Some(t@),
            None => tile_named(template::tile_views(tiles@), name@) is None,
        },
{
    let ghost all = template::tile_views(tiles@);
    let mut i: usize = tiles.len();
    assert(all.take(i as int) =~= all);
    while i > 0
        invariant
            i <= tiles@.len(),
            all == template::tile_views(tiles@),
            tile_named(all, name@) == tile_named(all.take(i as int), name@),
        decreases i,
    {
        assert(all.take(i as int).drop_last() =~= all.take(i - 1));
        assert(all.take(i as int).last() == tiles@[i - 1]@);
        i = i - 1;
        if *tiles[i].name.as_str() == *name {
            return Some(&tiles[i]);
        }
    }
    None
}

/// The template that a hole names, if it does nothing else.
fn find_spliced<'a>(tiles: &'a Vec<TileDef>, h: &TileHole) -> (r: Option<&'a TileDef>)
    ensures
        match r {
            Some(t) => spliced_tile(template::tile_views(tiles@), h@) == Some(t@),
            None => spliced_tile(template::tile_views(tiles@), h@) is None,
        },
{
    match &h.expr {
        Expr::Ident(name, _) => {
            assert(h@.expr == ExprV::Ident(name@, h.expr->Ident_1));
            if h.decl_type.is_none() && h.format.is_none() {
                find_tile(tiles, name.as_str())
            } else {
                None
            }
        },
        _ => None,
    }
}

/// An encoding, plain text where none is given.
fn or_text(e: &Option<String>) -> (r: String)
    ensures
        r@ == encoding_or_text(template::maybe(*e)),
{
    match e {
        Some(s) => s.clone(),
        None => "text".to_owned(),
    }
}

/// Adds pieces.
fn append_pieces(out: &mut Vec<TilePiece>, more: Vec<TilePiece>)
    ensures
        template::piece_views(final(out)@) == template::piece_views(old(out)@)
            + template::piece_views(more@),
{
    let ghost before = out@;
    let ghost added = more@;
    let mut more: Vec<TilePiece> = more;
    out.append(&mut more);
    proof {
        template::lemma_piece_views(out@);
        template::lemma_piece_views(before);
        template::lemma_piece_views(added);
        assert(out@ =~= before + added);
        assert(template::piece_views(out@) =~= template::piece_views(before)
            + template::piece_views(added));
    }
}

/// Replaces each hole that names an earlier template of the same encoding by
/// the pieces of that template.
pub fn splice_tiles(
    tiles: &Vec<TileDef>,
    pieces: &Vec<TilePiece>,
    current: &str,
    encoding: &str,
    depth: usize,
) -> (r: Result<Vec<TilePiece>, String>)
    requires
        depth <= 17,
    ensures
        pieces_outcome(r) == spliced(
            template::tile_views(tiles@),
            template::piece_views(pieces@),
            current@,
            encoding@,
            depth as nat,
        ),
    decreases 17 - depth,
{
    let ghost known = template::tile_views(tiles@);
    let ghost all = template::piece_views(pieces@);
    if depth > 16 {
        let mut m: String = "tile '".to_owned();
        m.append(current);
        m.append("': splice nesting too deep; is there a cycle?");
        return Err(m);
    }
    let mut out: Vec<TilePiece> = Vec::new();
    let mut i: usize = 0;
    proof {
        template::lemma_piece_views(pieces@);
        assert(all.take(0) =~= Seq::<PieceV>::empty());
        assert(template::piece_views(out@) =~= Seq::<PieceV>::empty());
    }
    while i < pieces.len()
        invariant
            depth <= 16,
            i <= pieces@.len(),
            known == template::tile_views(tiles@),
            all == template::piece_views(pieces@),
            all.len() == pieces@.len(),
            forall|k: int|
                0 <= k < pieces@.len() ==> #[trigger] all[k] == template::piece_view(pieces@[k]),
            spliced(known, all.take(i as int), current@, encoding@, depth as nat) == Ok::<
                Seq<PieceV>,
                Seq<char>,
            >(template::piece_views(out@)),
        decreases pieces.len() - i,
    {
        assert(all.take(i + 1).drop_last() =~= all.take(i as int));
        assert(all.take(i + 1).last() == template::piece_view(pieces@[i as int]));
        match &pieces[i] {
            TilePiece::Hole(h) => {
                let mut inner: Option<Vec<TilePiece>> = None;
                match find_spliced(tiles, h) {
                    Some(other) => {
                        if *other.name.as_str() == *current {
                            let mut m: String = "tile '".to_owned();
                            m.append(current);
                            m.append("' splices itself");
                            proof {
                                lemma_splice_stop(
                                    known,
                                    all,
                                    current@,
                                    encoding@,
                                    depth as nat,
                                    i + 1,
                                );
                            }
                            return Err(m);
                        }
                        if *or_text(&other.encoding).as_str() == *encoding {
                            match splice_tiles(
                                tiles,
                                &other.pieces,
                                other.name.as_str(),
                                encoding,
                                depth + 1,
                            ) {
                                Err(e) => {
                                    proof {
                                        lemma_splice_stop(
                                            known,
                                            all,
                                            current@,
                                            encoding@,
                                            depth as nat,
                                            i + 1,
                                        );
                                    }
                                    return Err(e);
                                },
                                Ok(v) => {
                                    inner = Some(v);
                                },
                            }
                        }
                    },
                    None => {},
                }
                match inner {
                    Some(v) => append_pieces(&mut out, v),
                    None => tile::push_piece(&mut out, TilePiece::Hole(h.copy())),
                }
            },
            TilePiece::Projection { source, sep, body, span } => {
                match splice_tiles(tiles, body, current, encoding, depth + 1) {
                    Err(e) => {
                        proof {
                            lemma_splice_stop(
                                known,
                                all,
                                current@,
                                encoding@,
                                depth as nat,
                                i + 1,
                            );
                        }
                        return Err(e);
                    },
                    Ok(v) => tile::push_piece(
                        &mut out,
                        TilePiece::Projection {
                            source: source.copy(),
                            sep: template::copy_maybe(sep),
                            body: v,
                            span: *span,
                        },
                    ),
                }
            },
            TilePiece::Branch { cond, then: yes, otherwise, span } => {
                let first: Vec<TilePiece> = match splice_tiles(
                    tiles,
                    yes,
                    current,
                    encoding,
                    depth + 1,
                ) {
                    Err(e) => {
                        proof {
                            lemma_splice_stop(
                                known,
                                all,
                                current@,
                                encoding@,
                                depth as nat,
                                i + 1,
                            );
                        }
                        return Err(e);
                    },
                    Ok(v) => v,
                };
                let last: Option<Vec<TilePiece>> = match otherwise {
                    None => None,
                    Some(no) => match splice_tiles(tiles, no, current, encoding, depth + 1) {
                        Err(e) => {
                            proof {
                                lemma_splice_stop(
                                    known,
                                    all,
                                    current@,
                                    encoding@,
                                    depth as nat,
                                    i + 1,
                                );
                            }
                            return Err(e);
                        },
                        Ok(v) => Some(v),
                    },
                };
                tile::push_piece(
                    &mut out,
                    TilePiece::Branch {
                        cond: cond.copy(),
                        then: first,
                        otherwise: last,
                        span: *span,
                    },
                );
            },
            TilePiece::Static(t) => tile::push_piece(&mut out, TilePiece::Static(t.clone())),
        }
        i = i + 1;
    }
    assert(all.take(i as int) =~= all);
    Ok(out)
}

// ---------------------------------------------------------------------
// Lowering, done
// ---------------------------------------------------------------------

/// The program of a body in the making.
#[derive(Debug)]
pub struct BodyContext {
    pub elements: Vec<(String, PortType)>,
    pub bindings: Vec<String>,
    /// The outer names that the body reads, each with its input and type.
    pub cascade: Vec<(String, usize, String)>,
    /// The producers that are bound again in the body.
    pub producers: Vec<String>,
    /// The names that were made up.
    pub names: Vec<String>,
}

impl View for BodyContext {
    type V = BodyV;

    open spec fn view(&self) -> BodyV {
        BodyV {
            elements: element_views(self.elements@),
            bindings: chars::texts(self.bindings@),
            cascade: tile_ops::placed_views(self.cascade@),
            producers: chars::texts(self.producers@),
            names: chars::texts(self.names@),
        }
    }
}

/// The content of a body, if there is one.
pub open spec fn maybe_body(b: Option<BodyContext>) -> Option<BodyV> {
    match b {
        Some(x) => Some(x@),
        None => None,
    }
}

/// The state of lowering one template.
#[derive(Debug)]
pub struct Lowering {
    pub compiler: Compiler,
    /// The wires that are handed to the template.
    pub inputs: Vec<String>,
    pub children: Vec<ChildSpec>,
    /// The names that were made up.
    pub names: Vec<String>,
    /// Whether the text so far ends inside a JSON string.
    pub in_string: bool,
    pub body: Option<BodyContext>,
    pub events: Vec<CompileEvent>,
}

impl View for Lowering {
    type V = LowerV;

    open spec fn view(&self) -> LowerV {
        LowerV {
            c: self.compiler@,
            inputs: chars::texts(self.inputs@),
            children: tile_ops::child_views(self.children@),
            names: chars::texts(self.names@),
            in_string: self.in_string,
            body: maybe_body(self.body),
            events: events::event_views(self.events@),
        }
    }
}

/// How a hole was typed.
#[derive(Debug)]
pub struct HoleTyping {
    pub wire: PortType,
    pub declared: Option<PortType>,
    pub effective: PortType,
    pub adapter: Option<(PortType, PortType)>,
    pub expectation: String,
}

impl View for HoleTyping {
    type V = TypingV;

    open spec fn view(&self) -> TypingV {
        TypingV {
            wire: self.wire,
            declared: self.declared,
            effective: self.effective,
            adapter: self.adapter,
            expectation: self.expectation@,
        }
    }
}

/// The content of the outcome of typing a hole.
pub open spec fn typing_outcome(r: Result<HoleTyping, String>) -> Result<TypingV, Seq<char>> {
    match r {
        Ok(x) => Ok(x@),
        Err(e) => Err(e@),
    }
}

/// The content of the outcome of a hole.
pub open spec fn source_view(r: Result<HoleSource, String>) -> Result<HoleSourceV, Seq<char>> {
    match r {
        Ok(x) => Ok(x@),
        Err(e) => Err(e@),
    }
}

/// The content of the outcome of a step.
pub open spec fn op_outcome(r: Result<TileOp, String>) -> Result<OpV, Seq<char>> {
    match r {
        Ok(x) => Ok(x@),
        Err(e) => Err(e@),
    }
}

/// The content of the outcome of a run of steps.
pub open spec fn ops_outcome(r: Result<Vec<TileOp>, String>) -> Result<Seq<OpV>, Seq<char>> {
    match r {
        Ok(v) => Ok(tile_ops::op_views(v@)),
        Err(e) => Err(e@),
    }
}

/// The first element of a name stays the first in a longer run.
proof fn lemma_element_more(s: Seq<(Seq<char>, PortType)>, name: Seq<char>, k: int)
    requires
        0 <= k <= s.len(),
        element_type(s.take(k), name) is Some,
    ensures
        element_type(s, name) == element_type(s.take(k), name),
    decreases s.len(),
{
    if k == s.len() {
        assert(s.take(k) =~= s);
    } else {
        assert(s.drop_last().take(k) =~= s.take(k));
        lemma_element_more(s.drop_last(), name, k);
    }
}

/// The type of the element `name`.
fn find_element(v: &Vec<(String, PortType)>, name: &str) -> (r: Option<PortType>)
    ensures
        r == element_type(element_views(v@), name@),
{
    let ghost all = element_views(v@);
    let mut i: usize = 0;
    assert(all.take(0) =~= Seq::<(Seq<char>, PortType)>::empty());
    while i < v.len()
        invariant
            i <= v@.len(),
            all == element_views(v@),
            element_type(all.take(i as int), name@) is None,
        decreases v.len() - i,
    {
        assert(all.take(i + 1).drop_last() =~= all.take(i as int));
        assert(all.take(i + 1).last() == all[i as int]);
        if *v[i].0.as_str() == *name {
            proof {
                lemma_element_more(all, name@, i + 1);
            }
            return Some(v[i].1);
        }
        i = i + 1;
    }
    assert(all.take(i as int) =~= all);
    None
}

/// The first outer name stays the first in a longer run.
proof fn lemma_cascade_more(s: Seq<(Seq<char>, nat, Seq<char>)>, name: Seq<char>, k: int)
    requires
        0 <= k <= s.len(),
        cascade_type(s.take(k), name) is Some,
    ensures
        cascade_type(s, name) == cascade_type(s.take(k), name),
    decreases s.len(),
{
    if k == s.len() {
        assert(s.take(k) =~= s);
    } else {
        assert(s.drop_last().take(k) =~= s.take(k));
        lemma_cascade_more(s.drop_last(), name, k);
    }
}

/// The type of the outer name `name`.
fn find_cascade(v: &Vec<(String, usize, String)>, name: &str) -> (r: Option<String>)
    ensures
        template::maybe(r) == cascade_type(tile_ops::placed_views(v@), name@),
{
    let ghost all = tile_ops::placed_views(v@);
    let mut i: usize = 0;
    assert(all.take(0) =~= Seq::<(Seq<char>, nat, Seq<char>)>::empty());
    while i < v.len()
        invariant
            i <= v@.len(),
            all == tile_ops::placed_views(v@),
            cascade_type(all.take(i as int), name@) is None,
        decreases v.len() - i,
    {
        assert(all.take(i + 1).drop_last() =~= all.take(i as int));
        assert(all.take(i + 1).last() == all[i as int]);
        if *v[i].0.as_str() == *name {
            proof {
                lemma_cascade_more(all, name@, i + 1);
            }
            return Some(v[i].2.clone());
        }
        i = i + 1;
    }
    assert(all.take(i as int) =~= all);
    None
}

/// The place of `name`, the end where it is not there.
fn find_place(v: &Vec<String>, name: &str) -> (r: usize)
    ensures
        r <= v@.len(),
        r == place_in(chars::texts(v@), name@, 0),
{
    let ghost all = chars::texts(v@);
    let mut i: usize = 0;
    while i < v.len()
        invariant
            i <= v@.len(),
            all == chars::texts(v@),
            place_in(all, name@, 0) == place_in(all, name@, i as int),
        decreases v.len() - i,
    {
        assert(all[i as int] == v@[i as int]@);
        if *v[i].as_str() == *name {
            return i;
        }
        i = i + 1;
    }
    i
}

/// Whether a value of the type has no text.
fn is_textless(t: PortType) -> (r: bool)
    ensures
        r == textless(t),
{
    t == PortType::Ext || t == PortType::Handle || t == PortType::Reg128 || t == PortType::RegI8x16
        || t == PortType::RegI16x8 || t == PortType::RegI32x4 || t == PortType::RegI64x2 || t
        == PortType::RegF16x8 || t == PortType::RegF32x4 || t == PortType::RegF64x2
}

/// Whether a value of the type is a number.
pub fn is_numeric(t: PortType) -> (r: bool)
    ensures
        r == numeric(t),
{
    t == PortType::U64 || t == PortType::I64 || t == PortType::F64 || t == PortType::U32 || t
        == PortType::I32 || t == PortType::F32 || t == PortType::U16 || t == PortType::I16 || t
        == PortType::U8 || t == PortType::I8 || t == PortType::F16 || t == PortType::U128 || t
        == PortType::I128
}

/// What writes the value of a hole.
fn encoder_text(enc: &HoleEncoding, effective: PortType) -> (r: String)
    ensures
        r@ == encoder(enc@, effective),
{
    let json: bool = *enc.encoding.as_str() == *"json";
    let mut out: String = if enc.cond {
        "truth value as 1 or 0".to_owned()
    } else if enc.raw {
        "raw text, no escaping".to_owned()
    } else if json && enc.position == HolePosition::Value {
        if effective == PortType::Bool {
            "json boolean".to_owned()
        } else if effective == PortType::Json {
            "json value, serialized".to_owned()
        } else if is_numeric(effective) {
            "json number".to_owned()
        } else {
            "json string, quoted and escaped".to_owned()
        }
    } else if json && enc.position == HolePosition::InString {
        "json escaped text".to_owned()
    } else if *enc.encoding.as_str() == *"csv" {
        "csv field, quoted when needed".to_owned()
    } else {
        "display text".to_owned()
    };
    match &enc.format {
        Some(fmt) => {
            out.append(", format ");
            out.append(fmt.as_str());
        },
        None => {},
    }
    out
}

/// Adds a report.
fn report(l: &mut Lowering, e: CompileEvent)
    ensures
        final(l)@ == (LowerV { events: old(l)@.events.push(e@), ..old(l)@ }),
{
    let ghost before = l.events@;
    let ghost shown = e@;
    l.events.push(e);
    assert(events::event_views(l.events@) =~= events::event_views(before).push(shown));
}

/// Hands a wire to the template, unless it is already.
fn push_input(l: &mut Lowering, name: &str) -> (r: usize)
    ensures
        r == place_in(old(l)@.inputs, name@, 0),
        final(l)@ == (LowerV { inputs: with_input(old(l)@.inputs, name@), ..old(l)@ }),
{
    let i: usize = find_place(&l.inputs, name);
    if i >= l.inputs.len() {
        compiler::add_name(&mut l.inputs, name);
    }
    i
}

/// Two arguments without a name.
fn two_args(a: Expr, b: Expr) -> (r: Vec<Arg>)
    ensures
        ast::arg_views(r@) == seq![
            ArgV { name: None, value: a@ },
            ArgV { name: None, value: b@ },
        ],
{
    let ghost shown = seq![ArgV { name: None, value: a@ }, ArgV { name: None, value: b@ }];
    let mut r: Vec<Arg> = Vec::new();
    r.push(Arg::Positional(a));
    r.push(Arg::Positional(b));
    proof {
        ast::lemma_arg_views(r@);
        assert(ast::arg_view(r@[0]) == shown[0]);
        assert(ast::arg_view(r@[1]) == shown[1]);
        assert(ast::arg_views(r@) =~= shown);
    }
    r
}

/// What does not change while a template is lowered.
struct TileFrame<'a, T: TileTools> {
    tools: &'a T,
    producers: &'a Vec<Producer>,
    tile_name: String,
    encoding: String,
    options: TileOptions,
    strict: bool,
    span: Span,
}

impl<'a, T: TileTools> TileFrame<'a, T> {
    /// The content of what does not change.
    spec fn frame(&self) -> FrameV {
        FrameV {
            tile: self.tile_name@,
            encoding: self.encoding@,
            options: self.options@,
            strict: self.strict,
            span: self.span,
            producers: producer_views(self.producers@),
        }
    }

    /// `tile`, the name of the template and what follows.
    fn open_message(&self, rest: &str) -> (r: String)
        ensures
            r@ == "tile '"@ + self.frame().tile + rest@,
    {
        let mut m: String = "tile '".to_owned();
        m.append(self.tile_name.as_str());
        m.append(rest);
        m
    }

    /// A message on a hole.
    fn hole_fault(&self, text: &str, e: &str) -> (r: String)
        ensures
            r@ == hole_message(self.frame(), text@, e@),
    {
        let mut m: String = self.open_message("': hole `");
        m.append(text);
        m.append("`: ");
        m.append(e);
        m
    }

    /// The type of the expression of a hole.
    fn infer_type(&self, l: &Lowering, expr: &Expr) -> (r: PortType)
        ensures
            r == hole_type(*self.tools, l@, expr@),
    {
        match expr {
            Expr::Ident(name, span) => {
                assert(expr@ == ExprV::Ident(name@, *span));
                match &l.body {
                    Some(b) => match find_element(&b.elements, name.as_str()) {
                        Some(p) => p,
                        None => match find_cascade(&b.cascade, name.as_str()) {
                            Some(kw) => match PortType::from_keyword(kw.as_str()) {
                                Some(p) => p,
                                None => PortType::U64,
                            },
                            None => binding::infer_expr_type(self.tools, &l.compiler, expr),
                        },
                    },
                    None => binding::infer_expr_type(self.tools, &l.compiler, expr),
                }
            },
            _ => binding::infer_expr_type(self.tools, &l.compiler, expr),
        }
    }

    /// The type of what a generator makes.
    fn generator_type(&self, l: &Lowering, text: &str) -> (r: Result<PortType, String>)
        ensures
            compiler::told(r) == generator_type(*self.tools, l@, text@),
    {
        match self.tools.parse_expression(text) {
            Ok(x) => Ok(self.infer_type(l, &x.expr)),
            Err(_) => self.tools.probe_element_type(text),
        }
    }

    /// The types of what a run of generators makes.
    fn generator_types(&self, l: &Lowering, gens: &Vec<(String, String)>) -> (r: Vec<
        Result<PortType, String>,
    >)
        ensures
            probe_views(r@) == generator_types(
                *self.tools,
                l@,
                tile_source::pair_views(gens@),
            ),
    {
        let mut out: Vec<Result<PortType, String>> = Vec::new();
        let mut i: usize = 0;
        while i < gens.len()
            invariant
                i <= gens@.len(),
                out@.len() == i,
                forall|k: int|
                    0 <= k < i ==> compiler::told(#[trigger] out@[k]) == generator_type(
                        *self.tools,
                        l@,
                        gens@[k].1@,
                    ),
            decreases gens.len() - i,
        {
            out.push(self.generator_type(l, gens[i].1.as_str()));
            i = i + 1;
        }
        assert(probe_views(out@) =~= generator_types(
            *self.tools,
            l@,
            tile_source::pair_views(gens@),
        ));
        out
    }

    /// What is expected of a hole.
    fn expectation(&self, position: HolePosition, cond: bool) -> (r: String)
        ensures
            r@ == expected(self.frame().encoding, position, cond),
    {
        let json: bool = *self.encoding.as_str() == *"json";
        if cond {
            "a truth value".to_owned()
        } else if json && position == HolePosition::Value {
            "any JSON value".to_owned()
        } else if json && position == HolePosition::InString {
            "text inside a JSON string".to_owned()
        } else if *self.encoding.as_str() == *"csv" {
            "a CSV field".to_owned()
        } else {
            "text".to_owned()
        }
    }

    /// Types a hole.
    fn type_hole(
        &self,
        text: &str,
        wire: PortType,
        declared: &Option<String>,
        position: HolePosition,
        cond: bool,
    ) -> (r: Result<HoleTyping, String>)
        ensures
            typing_outcome(r) == typing(
                *self.tools,
                self.frame(),
                text@,
                wire,
                template::maybe(*declared),
                position,
                cond,
            ),
    {
        let expectation: String = self.expectation(position, cond);
        if is_textless(wire) {
            let mut m: String = "a ".to_owned();
            m.append(wire.to_keyword());
            m.append(" wire has no text form and cannot fill a hole");
            return Err(self.hole_fault(text, m.as_str()));
        }
        let to: PortType = match declared {
            None => {
                return Ok(
                    HoleTyping {
                        wire,
                        declared: None,
                        effective: wire,
                        adapter: None,
                        expectation,
                    },
                );
            },
            Some(kw) => match PortType::from_keyword(kw.as_str()) {
                None => {
                    let mut m: String = "unknown type '".to_owned();
                    m.append(kw.as_str());
                    m.append("'");
                    return Err(self.hole_fault(text, m.as_str()));
                },
                Some(to) => to,
            },
        };
        if to == wire {
            return Ok(
                HoleTyping {
                    wire,
                    declared: Some(to),
                    effective: wire,
                    adapter: None,
                    expectation,
                },
            );
        }
        if self.tools.auto_adapter(wire, to).is_none() {
            let mut m: String = "no conversion from the wire type ".to_owned();
            m.append(wire.to_keyword());
            m.append(" to the declared type ");
            m.append(to.to_keyword());
            m.append("; write the conversion explicitly in the expression");
            return Err(self.hole_fault(text, m.as_str()));
        }
        if self.strict {
            let mut m: String = "strict mode rejects the implicit ".to_owned();
            m.append(wire.to_keyword());
            m.append(" -> ");
            m.append(to.to_keyword());
            m.append(
                " adapter the declaration needs; write the conversion explicitly in the expression",
            );
            return Err(self.hole_fault(text, m.as_str()));
        }
        Ok(
            HoleTyping {
                wire,
                declared: Some(to),
                effective: to,
                adapter: Some((wire, to)),
                expectation,
            },
        )
    }

    /// Reports how a hole was typed.
    fn record(&self, l: &mut Lowering, text: &str, ty: &HoleTyping, enc: &HoleEncoding)
        ensures
            final(l)@ == (LowerV {
                events: old(l)@.events.push(typed_event(self.frame(), text@, ty@, enc@)),
                ..old(l)@
            }),
    {
        let mut expectation: String = ty.expectation.clone();
        expectation.append(" (");
        expectation.append(ty.effective.to_keyword());
        expectation.append(")");
        let adapter: Option<String> = match ty.adapter {
            Some((from, to)) => {
                let mut m: String = from.to_keyword().to_owned();
                m.append(" -> ");
                m.append(to.to_keyword());
                Some(m)
            },
            None => None,
        };
        let declared: Option<String> = match ty.declared {
            Some(t) => Some(t.to_keyword().to_owned()),
            None => None,
        };
        let e: CompileEvent = CompileEvent::TileHoleTyped {
            tile: self.tile_name.clone(),
            hole: text.to_owned(),
            wire_type: ty.wire.to_keyword().to_owned(),
            declared,
            expectation,
            encoder: encoder_text(enc, ty.effective),
            adapter,
        };
        assert(e@ =~= typed_event(self.frame(), text@, ty@, enc@));
        report(l, e);
    }

    /// Makes up a name.
    fn next_name(&self, l: &mut Lowering, kind: &str) -> (r: String)
        ensures
            r@ == next_name(self.frame(), old(l)@, kind@),
            final(l)@ == took(self.frame(), old(l)@, kind@),
    {
        let mut out: String = "__tile_".to_owned();
        out.append(self.tile_name.as_str());
        out.append("_");
        out.append(kind);
        out.append(chars::usize_text(l.names.len()).as_str());
        compiler::add_name(&mut l.names, out.as_str());
        out
    }

    /// Where a hole stands.
    fn position(&self, l: &Lowering) -> (r: HolePosition)
        ensures
            r == position_of(self.frame(), l@),
    {
        if *self.encoding.as_str() != *"json" {
            HolePosition::Text
        } else if l.in_string {
            HolePosition::InString
        } else {
            HolePosition::Value
        }
    }

    /// The call that encodes the value of a hole.
    fn encode_call(&self, expr: Expr, enc: &HoleEncoding) -> (r: Expr)
        ensures
            r@ == encode_call_of(*self.tools, expr@, enc@, self.frame().span),
    {
        let text: Expr = Expr::StringLit(self.tools.encoding_text(enc), self.span);
        assert(text@ == ExprV::StringLit(self.tools.encoded(enc@), self.span));
        Expr::Call(
            CallExpr {
                func: "tile_encode".to_owned(),
                args: two_args(expr, text),
                span: self.span,
            },
        )
    }

    /// Binds `name` to the encoded `expr` and hands it to the template.
    fn encode_hole(
        &self,
        l: &mut Lowering,
        name: &str,
        text: &str,
        expr: Expr,
        ty: &HoleTyping,
        enc: &HoleEncoding,
    ) -> (r: Result<HoleSource, String>)
        ensures
            (final(l)@, source_view(r)) == encoded_hole(
                *self.tools,
                self.frame(),
                old(l)@,
                name@,
                text@,
                expr@,
                ty@,
                enc@,
            ),
    {
        let call: Expr = self.encode_call(expr, enc);
        let names: Vec<String> = compiler::one_name(name);
        match l.compiler.compile_binding(self.tools, &names, &call) {
            Err(e) => Err(self.hole_fault(text, e.as_str())),
            Ok(_) => {
                self.record(l, text, ty, enc);
                let i: usize = push_input(l, name);
                Ok(HoleSource::Wire(i))
            },
        }
    }

    /// Lowers a hole outside any body.
    fn wire_hole(&self, l: &mut Lowering, text: &str, expr: &Expr, enc: HoleEncoding) -> (r: Result<
        HoleSource,
        String,
    >)
        ensures
            (final(l)@, source_view(r)) == wire_hole_lowered(
                *self.tools,
                self.frame(),
                old(l)@,
                text@,
                expr@,
                enc@,
            ),
    {
        let wire: PortType = self.infer_type(l, expr);
        let ty: HoleTyping = match self.type_hole(text, wire, &enc.ty, enc.position, enc.cond) {
            Err(e) => {
                return Err(e);
            },
            Ok(ty) => ty,
        };
        let ghost asked = enc@;
        let mut enc: HoleEncoding = enc;
        enc.ty = Some(ty.effective.to_keyword().to_owned());
        assert(enc@ =~= settled(asked, ty@));
        let name: String = self.next_name(l, "h");
        match ty.adapter {
            None => self.encode_hole(l, name.as_str(), text, expr.copy(), &ty, &enc),
            Some((from, to)) => {
                let mut held: String = name.clone();
                held.append("_v");
                let names: Vec<String> = compiler::one_name(held.as_str());
                match l.compiler.compile_binding(self.tools, &names, expr) {
                    Err(e) => {
                        return Err(self.hole_fault(text, e.as_str()));
                    },
                    Ok(_) => {},
                }
                match self.tools.auto_adapter(from, to) {
                    None => Err(chars::string_of(&Vec::new())),
                    Some(kind) => {
                        let mut turned: String = name.clone();
                        turned.append("_a");
                        l.compiler.add_binding(
                            turned.as_str(),
                            kind,
                            compiler::one_wire(WireRef::node(held.as_str())),
                        );
                        let value: Expr = Expr::Ident(turned, self.span);
                        assert(value@ == ExprV::Ident(name@ + "_a"@, self.span));
                        self.encode_hole(l, name.as_str(), text, value, &ty, &enc)
                    },
                }
            },
        }
    }
}

/// Makes an outer name available in a body.
fn cascade_ref(l: &mut Lowering, r: &str)
    ensures
        final(l)@ == cascaded_ref(old(l)@, r@),
{
    let known: bool = match &l.body {
        None => true,
        Some(b) => find_element(&b.elements, r).is_some() || find_cascade(&b.cascade, r).is_some()
            || compiler::listed(&b.producers, r),
    };
    if known {
        return;
    }
    let ty: Option<PortType> = match l.compiler.graph.output_type(r) {
        Some(t) => Some(t),
        None => l.compiler.graph.input_type(r),
    };
    match ty {
        None => {},
        Some(t) => {
            let i: usize = push_input(l, r);
            match l.body.take() {
                None => {},
                Some(b) => {
                    let mut b: BodyContext = b;
                    let ghost before = b.cascade@;
                    b.cascade.push((r.to_owned(), i, t.to_keyword().to_owned()));
                    assert(tile_ops::placed_views(b.cascade@) =~= tile_ops::placed_views(
                        before,
                    ).push((r@, i as nat, value::port_keyword(t))));
                    l.body = Some(b);
                },
            }
        },
    }
}

/// Makes outer names available in a body.
fn cascade_refs(l: &mut Lowering, names: &Vec<String>)
    ensures
        final(l)@ == cascaded(old(l)@, chars::texts(names@)),
{
    let ghost all = chars::texts(names@);
    let ghost start = l@;
    let mut i: usize = 0;
    assert(all.take(0) =~= Seq::<Seq<char>>::empty());
    while i < names.len()
        invariant
            i <= names@.len(),
            all == chars::texts(names@),
            l@ == cascaded(start, all.take(i as int)),
        decreases names.len() - i,
    {
        assert(all.take(i + 1).drop_last() =~= all.take(i as int));
        assert(all.take(i + 1).last() == names@[i as int]@);
        cascade_ref(l, names[i].as_str());
        i = i + 1;
    }
    assert(all.take(i as int) =~= all);
}

/// The names that `expr` refers to, in order and each once.
fn sorted_refs(expr: &Expr) -> (r: Vec<String>)
    ensures
        chars::texts(r@) == refs::sorted(refs::references(expr@)),
{
    let mut found: Vec<String> = Vec::new();
    assert(chars::texts(found@) + refs::references(expr@) =~= refs::references(expr@));
    refs::gather(expr, &mut found);
    refs::sort_names(&found)
}

/// Adds a line to the program of the body.
fn add_line(l: &mut Lowering, line: &str)
    ensures
        final(l)@ == with_line(old(l)@, line@),
{
    match l.body.take() {
        None => {},
        Some(b) => {
            let mut b: BodyContext = b;
            compiler::add_name(&mut b.bindings, line);
            l.body = Some(b);
        },
    }
}

/// Makes up a name in the program of the body.
fn next_body_name(l: &mut Lowering) -> (r: String)
    ensures
        r@ == body_name(old(l)@),
        final(l)@ == took_body(old(l)@),
{
    match l.body.take() {
        None => chars::string_of(&Vec::new()),
        Some(b) => {
            let mut b: BodyContext = b;
            let mut out: String = "__b".to_owned();
            out.append(chars::usize_text(b.names.len()).as_str());
            compiler::add_name(&mut b.names, out.as_str());
            l.body = Some(b);
            out
        },
    }
}

/// Makes what the expressions of a run of generators refer to available in
/// a body.
fn cascade_generators<T: TileTools>(tools: &T, l: &mut Lowering, gens: &Vec<(String, String)>)
    ensures
        final(l)@ == cascaded_generators(*tools, old(l)@, tile_source::pair_views(gens@)),
{
    let ghost all = tile_source::pair_views(gens@);
    let ghost start = l@;
    let mut i: usize = 0;
    assert(all.take(0) =~= Seq::<(Seq<char>, Seq<char>)>::empty());
    while i < gens.len()
        invariant
            i <= gens@.len(),
            all == tile_source::pair_views(gens@),
            l@ == cascaded_generators(*tools, start, all.take(i as int)),
        decreases gens.len() - i,
    {
        assert(all.take(i + 1).drop_last() =~= all.take(i as int));
        assert(all.take(i + 1).last() == all[i as int]);
        match tools.parse_expression(gens[i].1.as_str()) {
            Ok(x) => {
                let names: Vec<String> = sorted_refs(&x.expr);
                cascade_refs(l, &names);
            },
            Err(_) => {},
        }
        i = i + 1;
    }
    assert(all.take(i as int) =~= all);
}

/// Adds the names that the expressions of a run of generators refer to.
fn gather_generator_refs<T: TileTools>(
    tools: &T,
    gens: &Vec<(String, String)>,
    out: &mut Vec<String>,
)
    ensures
        chars::texts(final(out)@) == chars::texts(old(out)@) + generator_refs(
            *tools,
            tile_source::pair_views(gens@),
        ),
{
    let ghost all = tile_source::pair_views(gens@);
    let ghost start = chars::texts(out@);
    let mut i: usize = 0;
    proof {
        assert(all.take(0) =~= Seq::<(Seq<char>, Seq<char>)>::empty());
        assert(start + generator_refs(*tools, all.take(0)) =~= start);
    }
    while i < gens.len()
        invariant
            i <= gens@.len(),
            all == tile_source::pair_views(gens@),
            chars::texts(out@) == start + generator_refs(*tools, all.take(i as int)),
        decreases gens.len() - i,
    {
        assert(all.take(i + 1).drop_last() =~= all.take(i as int));
        assert(all.take(i + 1).last() == all[i as int]);
        let ghost before = chars::texts(out@);
        match tools.parse_expression(gens[i].1.as_str()) {
            Ok(x) => {
                refs::gather(&x.expr, out);
            },
            Err(_) => {
                assert(before + Seq::<Seq<char>>::empty() =~= before);
            },
        }
        assert(chars::texts(out@) =~= start + generator_refs(*tools, all.take(i + 1)));
        i = i + 1;
    }
    assert(all.take(i as int) =~= all);
}

/// Adds names to names.
fn append_names(out: &mut Vec<String>, more: Vec<String>)
    ensures
        chars::texts(final(out)@) == chars::texts(old(out)@) + chars::texts(more@),
{
    let ghost before = out@;
    let ghost added = more@;
    let mut more: Vec<String> = more;
    out.append(&mut more);
    assert(chars::texts(out@) =~= chars::texts(before) + chars::texts(added));
}

/// Adds the names that a piece refers to.
fn collect_refs<T: TileTools>(
    tools: &T,
    producers: &Vec<Producer>,
    piece: &TilePiece,
    out: &mut Vec<String>,
)
    ensures
        chars::texts(final(out)@) == chars::texts(old(out)@) + piece_refs(
            *tools,
            producer_views(producers@),
            piece@,
        ),
    decreases piece, 0nat,
{
    let ghost start = chars::texts(out@);
    let ghost known = producer_views(producers@);
    match piece {
        TilePiece::Static(_) => {
            assert(start + Seq::<Seq<char>>::empty() =~= start);
        },
        TilePiece::Hole(h) => refs::gather(&h.expr, out),
        TilePiece::Branch { cond, then: yes, otherwise, span } => {
            refs::gather(&cond.expr, out);
            collect_piece_refs(tools, producers, yes, out);
            match otherwise {
                Some(no) => collect_piece_refs(tools, producers, no, out),
                None => {},
            }
            assert(chars::texts(out@) =~= start + piece_refs(*tools, known, piece@));
        },
        TilePiece::Projection { source, sep, body, span } => {
            append_names(out, tile_source::placeholder_names(source.text.as_str()));
            match &source.producer {
                Some(n) => {
                    compiler::add_name(out, n.as_str());
                },
                None => {},
            }
            match tools.resolve_source(source, producers) {
                Ok(c) => {
                    let gens: Vec<(String, String)> = tile_source::generator_clauses(&c);
                    gather_generator_refs(tools, &gens, out);
                },
                Err(_) => {},
            }
            assert(decreases_to!(*piece => *body));
            collect_piece_refs(tools, producers, body, out);
            assert(chars::texts(out@) =~= start + piece_refs(*tools, known, piece@));
        },
    }
}

/// Adds the names that a run of pieces refers to.
pub fn collect_piece_refs<T: TileTools>(
    tools: &T,
    producers: &Vec<Producer>,
    pieces: &Vec<TilePiece>,
    out: &mut Vec<String>,
)
    ensures
        chars::texts(final(out)@) == chars::texts(old(out)@) + pieces_refs(
            *tools,
            producer_views(producers@),
            template::piece_views(pieces@),
        ),
    decreases pieces, 1nat,
{
    let ghost all = template::piece_views(pieces@);
    let ghost known = producer_views(producers@);
    let ghost start = chars::texts(out@);
    let mut i: usize = 0;
    proof {
        template::lemma_piece_views(pieces@);
        assert(all.take(0) =~= Seq::<PieceV>::empty());
        assert(start + pieces_refs(*tools, known, all.take(0)) =~= start);
    }
    while i < pieces.len()
        invariant
            i <= pieces@.len(),
            all == template::piece_views(pieces@),
            all.len() == pieces@.len(),
            forall|k: int|
                0 <= k < pieces@.len() ==> #[trigger] all[k] == template::piece_view(pieces@[k]),
            known == producer_views(producers@),
            chars::texts(out@) == start + pieces_refs(*tools, known, all.take(i as int)),
        decreases pieces.len() - i,
    {
        assert(decreases_to!(pieces@ => pieces@[i as int]));
        assert(decreases_to!(*pieces => pieces@));
        assert(all.take(i + 1).drop_last() =~= all.take(i as int));
        assert(all.take(i + 1).last() == template::piece_view(pieces@[i as int]));
        collect_refs(tools, producers, &pieces[i], out);
        assert(chars::texts(out@) =~= start + pieces_refs(*tools, known, all.take(i + 1)));
        i = i + 1;
    }
    assert(all.take(i as int) =~= all);
}

/// The names that are no elements.
fn drop_elements(names: &Vec<String>, elements: &Vec<(String, PortType)>) -> (r: Vec<String>)
    ensures
        chars::texts(r@) == not_elements(chars::texts(names@), element_views(elements@)),
{
    let ghost all = chars::texts(names@);
    let ghost keep = |n: Seq<char>| element_type(element_views(elements@), n) is None;
    let mut out: Vec<String> = Vec::new();
    let mut i: usize = 0;
    proof {
        reveal(Seq::filter);
        assert(all.take(0).filter(keep) =~= Seq::<Seq<char>>::empty());
        assert(chars::texts(out@) =~= Seq::<Seq<char>>::empty());
    }
    while i < names.len()
        invariant
            i <= names@.len(),
            all == chars::texts(names@),
            keep == |n: Seq<char>| element_type(element_views(elements@), n) is None,
            chars::texts(out@) == all.take(i as int).filter(keep),
        decreases names.len() - i,
    {
        proof {
            reveal(Seq::filter);
            assert(all.take(i + 1).drop_last() =~= all.take(i as int));
            assert(all.take(i + 1).last() == names@[i as int]@);
        }
        if find_element(elements, names[i].as_str()).is_none() {
            compiler::add_name(&mut out, names[i].as_str());
        }
        i = i + 1;
    }
    assert(all.take(i as int) =~= all);
    out
}

/// The latest producer `name`.
fn find_producer<'a>(v: &'a Vec<Producer>, name: &str) -> (r: Option<&'a Producer>)
    ensures
        match r {
            Some(p) => producer_named(producer_views(v@), name@) == Some(p@),
            None => producer_named(producer_views(v@), name@) is None,
        },
{
    let ghost all = producer_views(v@);
    let mut i: usize = v.len();
    assert(all.take(i as int) =~= all);
    while i > 0
        invariant
            i <= v@.len(),
            all == producer_views(v@),
            producer_named(all, name@) == producer_named(all.take(i as int), name@),
        decreases i,
    {
        assert(all.take(i as int).drop_last() =~= all.take(i - 1));
        assert(all.take(i as int).last() == v@[i - 1]@);
        i = i - 1;
        if *v[i].name.as_str() == *name {
            return Some(&v[i]);
        }
    }
    None
}

/// The names in braces of a run of texts.
fn gather_placeholders(texts: &Vec<String>) -> (r: Vec<String>)
    ensures
        chars::texts(r@) == all_placeholders(chars::texts(texts@)),
{
    let ghost all = chars::texts(texts@);
    let mut out: Vec<String> = Vec::new();
    let mut i: usize = 0;
    assert(all.take(0) =~= Seq::<Seq<char>>::empty());
    assert(chars::texts(out@) =~= Seq::<Seq<char>>::empty());
    while i < texts.len()
        invariant
            i <= texts@.len(),
            all == chars::texts(texts@),
            chars::texts(out@) == all_placeholders(all.take(i as int)),
        decreases texts.len() - i,
    {
        assert(all.take(i + 1).drop_last() =~= all.take(i as int));
        assert(all.take(i + 1).last() == texts@[i as int]@);
        append_names(&mut out, tile_source::placeholder_names(texts[i].as_str()));
        i = i + 1;
    }
    assert(all.take(i as int) =~= all);
    out
}

/// The first name that is not among `known`.
fn find_outside(names: &Vec<String>, known: &Vec<String>) -> (r: Option<String>)
    ensures
        template::maybe(r) == first_outside(chars::texts(names@), chars::texts(known@), 0),
{
    let ghost all = chars::texts(names@);
    let mut i: usize = 0;
    while i < names.len()
        invariant
            i <= names@.len(),
            all == chars::texts(names@),
            first_outside(all, chars::texts(known@), 0) == first_outside(
                all,
                chars::texts(known@),
                i as int,
            ),
        decreases names.len() - i,
    {
        assert(all[i as int] == names@[i as int]@);
        if !compiler::listed(known, names[i].as_str()) {
            return Some(names[i].clone());
        }
        i = i + 1;
    }
    None
}

/// The program of a body.
fn program_text(b: &BodyContext) -> (r: String)
    ensures
        r@ == program(b@),
{
    let mut out: String = "input __tuple: u64\n".to_owned();
    let ghost head = out@;
    let ghost elems = element_views(b.elements@);
    let mut i: usize = 0;
    proof {
        assert(elems.take(0) =~= Seq::<(Seq<char>, PortType)>::empty());
        assert(head + element_lines(elems.take(0)) =~= head);
    }
    while i < b.elements.len()
        invariant
            i <= b.elements@.len(),
            elems == element_views(b.elements@),
            out@ == head + element_lines(elems.take(i as int)),
        decreases b.elements.len() - i,
    {
        assert(elems.take(i + 1).drop_last() =~= elems.take(i as int));
        assert(elems.take(i + 1).last() == elems[i as int]);
        out.append("extern ");
        out.append(b.elements[i].0.as_str());
        out.append(": ");
        out.append(b.elements[i].1.to_keyword());
        out.append("\n");
        assert(out@ =~= head + element_lines(elems.take(i + 1)));
        i = i + 1;
    }
    assert(elems.take(i as int) =~= elems);
    let ghost head = out@;
    let ghost outer = tile_ops::placed_views(b.cascade@);
    let mut j: usize = 0;
    proof {
        assert(outer.take(0) =~= Seq::<(Seq<char>, nat, Seq<char>)>::empty());
        assert(head + cascade_lines(outer.take(0)) =~= head);
    }
    while j < b.cascade.len()
        invariant
            j <= b.cascade@.len(),
            outer == tile_ops::placed_views(b.cascade@),
            out@ == head + cascade_lines(outer.take(j as int)),
        decreases b.cascade.len() - j,
    {
        assert(outer.take(j + 1).drop_last() =~= outer.take(j as int));
        assert(outer.take(j + 1).last() == outer[j as int]);
        out.append("extern ");
        out.append(b.cascade[j].0.as_str());
        out.append(": ");
        out.append(b.cascade[j].2.as_str());
        out.append("\n");
        assert(out@ =~= head + cascade_lines(outer.take(j + 1)));
        j = j + 1;
    }
    assert(outer.take(j as int) =~= outer);
    let ghost head = out@;
    let ghost rest = chars::texts(b.bindings@);
    let mut k: usize = 0;
    proof {
        assert(rest.take(0) =~= Seq::<Seq<char>>::empty());
        assert(head + lines(rest.take(0)) =~= head);
    }
    while k < b.bindings.len()
        invariant
            k <= b.bindings@.len(),
            rest == chars::texts(b.bindings@),
            out@ == head + lines(rest.take(k as int)),
        decreases b.bindings.len() - k,
    {
        assert(rest.take(k + 1).drop_last() =~= rest.take(k as int));
        assert(rest.take(k + 1).last() == b.bindings@[k as int]@);
        out.append(b.bindings[k].as_str());
        out.append("\n");
        assert(out@ =~= head + lines(rest.take(k + 1)));
        k = k + 1;
    }
    assert(rest.take(k as int) =~= rest);
    out
}

/// Follows text to whether it ends inside a string.
fn track_string_state(s: &str, inside: bool) -> (r: bool)
    ensures
        r == string_state(s@, 0, inside, false),
{
    let text: Vec<char> = chars::chars_of(s);
    let mut now: bool = inside;
    let mut escaped: bool = false;
    let mut i: usize = 0;
    while i < text.len()
        invariant
            i <= text@.len(),
            text@ == s@,
            string_state(s@, 0, inside, false) == string_state(s@, i as int, now, escaped),
        decreases text.len() - i,
    {
        let c: char = text[i];
        if now {
            if escaped {
                escaped = false;
            } else if c == '\\' {
                escaped = true;
            } else if c == '"' {
                now = false;
            }
        } else if c == '"' {
            now = true;
        }
        i = i + 1;
    }
    now
}

/// Adds the text that was gathered, where it is not empty.
fn flush(buf: &str, ops: &mut Vec<TileOp>)
    ensures
        tile_ops::op_views(final(ops)@) == with_text(tile_ops::op_views(old(ops)@), buf@),
{
    if tile::size(buf) > 0 {
        tile_ops::push_op(ops, TileOp::Static(buf.to_owned()));
    }
}

impl<'a, T: TileTools> TileFrame<'a, T> {
    /// Lowers a hole of a body.
    fn body_hole(&self, l: &mut Lowering, text: &str, expr: &Expr, enc: HoleEncoding) -> (r: Result<
        HoleSource,
        String,
    >)
        ensures
            (final(l)@, source_view(r)) == body_hole_lowered(
                *self.tools,
                self.frame(),
                old(l)@,
                text@,
                expr@,
                enc@,
            ),
    {
        let names: Vec<String> = sorted_refs(expr);
        cascade_refs(l, &names);
        let wire: PortType = self.infer_type(l, expr);
        let ty: HoleTyping = match self.type_hole(text, wire, &enc.ty, enc.position, enc.cond) {
            Err(e) => {
                return Err(e);
            },
            Ok(ty) => ty,
        };
        let ghost asked = enc@;
        let mut enc: HoleEncoding = enc;
        enc.ty = Some(ty.effective.to_keyword().to_owned());
        assert(enc@ =~= settled(asked, ty@));
        let value: Expr = match ty.adapter {
            None => expr.copy(),
            Some((from, to)) => if from == PortType::U64 && to == PortType::F64 {
                Expr::Cast(Box::new(expr.copy()), PortType::F64, self.span)
            } else if to == PortType::Str || to == PortType::Bool {
                expr.copy()
            } else {
                let mut m: String = "the ".to_owned();
                m.append(from.to_keyword());
                m.append(" -> ");
                m.append(to.to_keyword());
                m.append(
                    " adapter is not supported inside a projection body yet; write the conversion explicitly in the expression",
                );
                return Err(self.hole_fault(text, m.as_str()));
            },
        };
        assert(body_value(self.frame(), text@, expr@, ty.adapter) == Ok::<ExprV, Seq<char>>(
            value@,
        ));
        let name: String = next_body_name(l);
        let call: Expr = self.encode_call(value, &enc);
        let mut line: String = name.clone();
        line.append(" := ");
        line.append(self.tools.pp_expr(&call).as_str());
        add_line(l, line.as_str());
        self.record(l, text, &ty, &enc);
        Ok(HoleSource::Child(name))
    }

    /// Lowers a hole, of the body where there is one.
    fn lower_hole(&self, l: &mut Lowering, text: &str, expr: &Expr, enc: HoleEncoding) -> (r:
        Result<HoleSource, String>)
        ensures
            (final(l)@, source_view(r)) == hole_lowered(
                *self.tools,
                self.frame(),
                old(l)@,
                text@,
                expr@,
                enc@,
            ),
    {
        if l.body.is_some() {
            self.body_hole(l, text, expr, enc)
        } else {
            self.wire_hole(l, text, expr, enc)
        }
    }

    /// Whether a projection may run over `c`.
    fn check_bounded(&self, c: &Comprehension, text: &str) -> (r: Result<(), String>)
        ensures
            compiler::told(r) == bounded(
                *self.tools,
                self.frame(),
                algebra::comp_view(*c),
                text@,
            ),
    {
        match self.tools.reach_of(c) {
            Reach::Bounded => Ok(()),
            Reach::Unbounded => if tile_source::has_unhinted_source(c) {
                Ok(())
            } else {
                let mut m: String = self.open_message("': projection `for ");
                m.append(text);
                m.append(
                    "` has unbounded cardinality; a projection renders once per tuple and needs a finite source",
                );
                Err(m)
            },
            Reach::Continuous => {
                let mut m: String = self.open_message("': projection `for ");
                m.append(text);
                m.append(
                    "` ranges over a continuous source, which has no finite tuple set; project over a discrete range or list, or over values sampled by an expression",
                );
                Err(m)
            },
        }
    }

    /// Whether the conditions name nothing but elements.
    fn check_predicates(&self, c: &Comprehension, text: &str) -> (r: Result<(), String>)
        ensures
            compiler::told(r) == predicates_ok(self.frame(), algebra::comp_view(*c), text@),
    {
        let elements: Vec<String> = tile_source::clause_names(c);
        let named: Vec<String> = gather_placeholders(&tile_source::filter_predicates(c));
        match find_outside(&named, &elements) {
            None => Ok(()),
            Some(name) => {
                let mut m: String = self.open_message("': projection `for ");
                m.append(text);
                m.append("`: predicate placeholder `{");
                m.append(name.as_str());
                m.append(
                    "}` names a wire outside the comprehension; a projection's predicate sees only its elements",
                );
                Err(m)
            },
        }
    }

    /// Binds the producer that a source names again in the program of a
    /// body.
    fn rebind(&self, l: &mut Lowering, source: &ForSource) -> (r: Result<(), String>)
        ensures
            (final(l)@, compiler::told(r)) == rebound(self.frame(), old(l)@, source@),
    {
        match &source.producer {
            None => Ok(()),
            Some(name) => {
                let there: bool = match &l.body {
                    None => false,
                    Some(b) => compiler::listed(&b.producers, name.as_str()),
                };
                if there {
                    return Ok(());
                }
                match find_producer(self.producers, name.as_str()) {
                    None => {
                        let mut m: String = self.open_message("': producer '");
                        m.append(name.as_str());
                        m.append("' is not bound before this tile");
                        Err(m)
                    },
                    Some(p) => {
                        cascade_refs(l, &tile_source::placeholder_names(p.source_text.as_str()));
                        match l.body.take() {
                            None => {},
                            Some(b) => {
                                let mut b: BodyContext = b;
                                compiler::add_name(&mut b.producers, name.as_str());
                                l.body = Some(b);
                            },
                        }
                        let mut line: String = name.clone();
                        line.append(" := for ");
                        line.append(p.source_text.as_str());
                        add_line(l, line.as_str());
                        Ok(())
                    },
                }
            },
        }
    }

    /// The options of the template in brackets, nothing where they are the
    /// usual ones.
    fn write_options(&self) -> (r: String)
        ensures
            r@ == options_text(self.frame()),
    {
        let usual: TileOptions = TileOptions::default();
        let o: &TileOptions = &self.options;
        let mut parts: Vec<String> = Vec::new();
        assert(chars::texts(parts@) =~= Seq::<Seq<char>>::empty());
        if *o.open.as_str() != *usual.open.as_str() || *o.close.as_str() != *usual.close.as_str() {
            let mut m: String = "delims \"".to_owned();
            m.append(tile_source::escape_polydat_string(o.open.as_str()).as_str());
            m.append("\" \"");
            m.append(tile_source::escape_polydat_string(o.close.as_str()).as_str());
            m.append("\"");
            compiler::add_name(&mut parts, m.as_str());
        }
        if *o.sigil.as_str() != *usual.sigil.as_str() {
            let mut m: String = "sigil \"".to_owned();
            m.append(tile_source::escape_polydat_string(o.sigil.as_str()).as_str());
            m.append("\"");
            compiler::add_name(&mut parts, m.as_str());
        }
        if self.strict {
            compiler::add_name(&mut parts, "strict");
        }
        assert(chars::texts(parts@) =~= option_parts(self.frame()));
        if parts.len() == 0 {
            chars::string_of(&Vec::new())
        } else {
            let mut out: String = " (".to_owned();
            out.append(chars::join(&parts, ", ").as_str());
            out.append(")");
            out
        }
    }

    /// Lowers a projection inside a body.
    fn nested_projection(&self, l: &mut Lowering, piece: &TilePiece) -> (r: Result<TileOp, String>)
        requires
            piece@ is Projection,
        ensures
            (final(l)@, op_outcome(r)) == nested_lowered(
                *self.tools,
                self.frame(),
                old(l)@,
                piece@->Projection_0,
                piece@->Projection_1,
                piece@->Projection_2,
            ),
    {
        match piece {
            TilePiece::Projection { source, sep, body, span } => {
                if l.in_string {
                    return Err(
                        self.open_message(
                            "': a nested projection inside a string position is not supported yet; project the inner text into a wire of its own and reference it",
                        ),
                    );
                }
                let c: Comprehension = match self.tools.resolve_source(source, self.producers) {
                    Err(e) => {
                        let mut m: String = self.open_message("': nested projection: ");
                        m.append(e.as_str());
                        return Err(m);
                    },
                    Ok(c) => c,
                };
                match self.check_bounded(&c, source.text.as_str()) {
                    Err(e) => {
                        return Err(e);
                    },
                    Ok(_) => {},
                }
                match self.check_predicates(&c, source.text.as_str()) {
                    Err(e) => {
                        return Err(e);
                    },
                    Ok(_) => {},
                }
                let gens: Vec<(String, String)> = tile_source::generator_clauses(&c);
                let probed: Vec<Result<PortType, String>> = self.generator_types(l, &gens);
                let elements: Vec<(String, PortType)> = match self.tools.element_types(
                    &c,
                    &probed,
                ) {
                    Err(e) => {
                        let mut m: String = self.open_message("': nested projection `for ");
                        m.append(source.text.as_str());
                        m.append("`: ");
                        m.append(e.as_str());
                        return Err(m);
                    },
                    Ok(v) => v,
                };
                cascade_generators(self.tools, l, &gens);
                match self.rebind(l, source) {
                    Err(e) => {
                        return Err(e);
                    },
                    Ok(_) => {},
                }
                cascade_refs(l, &tile_source::placeholder_names(source.text.as_str()));
                let mut found: Vec<String> = Vec::new();
                let ghost named = pieces_refs(
                    *self.tools,
                    self.frame().producers,
                    template::piece_views(body@),
                );
                assert(chars::texts(found@) + named =~= named);
                collect_piece_refs(self.tools, self.producers, body, &mut found);
                let outer: Vec<String> = drop_elements(&refs::sort_names(&found), &elements);
                cascade_refs(l, &outer);
                let text: String = tile::render_piece(piece, &self.options);
                let name: String = next_body_name(l);
                let mut line: String = "tile ".to_owned();
                line.append(name.as_str());
                line.append(" : ");
                line.append(self.encoding.as_str());
                line.append(self.write_options().as_str());
                line.append(" := \"");
                line.append(tile_source::escape_polydat_string(text.as_str()).as_str());
                line.append("\"");
                add_line(l, line.as_str());
                Ok(TileOp::Hole(HoleSource::Child(name)))
            },
            _ => Err(chars::string_of(&Vec::new())),
        }
    }
}

/// The content of the outcome of a run of generators.
pub open spec fn placed_outcome(r: Result<Vec<(String, usize, String)>, String>) -> Result<
    Seq<(Seq<char>, nat, Seq<char>)>,
    Seq<char>,
> {
    match r {
        Ok(v) => Ok(tile_ops::placed_views(v@)),
        Err(e) => Err(e@),
    }
}

/// Whether `c` stands in `s`.
fn has_char(s: &str, c: char) -> (r: bool)
    ensures
        r == s@.contains(c),
{
    let text: Vec<char> = chars::chars_of(s);
    let mut i: usize = 0;
    while i < text.len()
        invariant
            i <= text@.len(),
            text@ == s@,
            forall|k: int| 0 <= k < i ==> text@[k] != c,
        decreases text.len() - i,
    {
        if text[i] == c {
            return true;
        }
        i = i + 1;
    }
    false
}

impl<'a, T: TileTools> TileFrame<'a, T> {
    /// A message on a generator.
    fn generator_fault(&self, text: &str, expr: &str, e: &str) -> (r: String)
        ensures
            r@ == generator_message(self.frame(), text@, expr@, e@),
    {
        let mut m: String = self.open_message("': projection `for ");
        m.append(text);
        m.append("`: generator `");
        m.append(expr);
        m.append("`");
        m.append(e);
        m
    }

    /// Lowers the generators of a source: each becomes a wire.
    fn lower_generators(
        &self,
        l: &mut Lowering,
        text: &str,
        elements: &Vec<(String, PortType)>,
        gens: &Vec<(String, String)>,
    ) -> (r: Result<Vec<(String, usize, String)>, String>)
        ensures
            (final(l)@, placed_outcome(r)) == generators_lowered(
                *self.tools,
                self.frame(),
                old(l)@,
                text@,
                element_views(elements@),
                tile_source::pair_views(gens@),
                0,
                Seq::empty(),
            ),
    {
        let ghost all = tile_source::pair_views(gens@);
        let ghost elems = element_views(elements@);
        let ghost start = l@;
        let ghost goal = generators_lowered(
            *self.tools,
            self.frame(),
            start,
            text@,
            elems,
            all,
            0,
            Seq::empty(),
        );
        let mut out: Vec<(String, usize, String)> = Vec::new();
        let mut i: usize = 0;
        assert(tile_ops::placed_views(out@) =~= Seq::<(Seq<char>, nat, Seq<char>)>::empty());
        while i < gens.len()
            invariant
                i <= gens@.len(),
                all == tile_source::pair_views(gens@),
                elems == element_views(elements@),
                goal == generators_lowered(
                    *self.tools,
                    self.frame(),
                    start,
                    text@,
                    elems,
                    all,
                    0,
                    Seq::empty(),
                ),
                goal == generators_lowered(
                    *self.tools,
                    self.frame(),
                    l@,
                    text@,
                    elems,
                    all,
                    i as int,
                    tile_ops::placed_views(out@),
                ),
                start == old(l)@,
            decreases gens.len() - i,
        {
            let name: &str = gens[i].0.as_str();
            let expr: &str = gens[i].1.as_str();
            assert(all[i as int] == (name@, expr@));
            if has_char(expr, '{') {
                return Err(
                    self.generator_fault(
                        text,
                        expr,
                        " uses a `{name}` placeholder; in a tile the generator is an expression over the scope's wires, so name the wire directly",
                    ),
                );
            }
            let x: Reading = match self.tools.parse_expression(expr) {
                Err(e) => {
                    let mut m: String = ": ".to_owned();
                    m.append(e.as_str());
                    return Err(self.generator_fault(text, expr, m.as_str()));
                },
                Ok(x) => x,
            };
            let wire: String = self.next_name(l, "g");
            let names: Vec<String> = compiler::one_name(wire.as_str());
            match l.compiler.compile_binding(self.tools, &names, &x.expr) {
                Err(e) => {
                    let mut m: String = ": ".to_owned();
                    m.append(e.as_str());
                    return Err(self.generator_fault(text, expr, m.as_str()));
                },
                Ok(_) => {},
            }
            let at: usize = push_input(l, wire.as_str());
            let ty: String = match find_element(elements, name) {
                Some(t) => t.to_keyword().to_owned(),
                None => "str".to_owned(),
            };
            let ghost before = out@;
            let ghost shown = (name@, at as nat, ty@);
            out.push((name.to_owned(), at, ty));
            assert(tile_ops::placed_views(out@) =~= tile_ops::placed_views(before).push(shown));
            i = i + 1;
        }
        Ok(out)
    }

    /// Closes the body of a projection.
    fn close_projection(
        &self,
        l: &mut Lowering,
        sep: &Option<String>,
        stream: String,
        generators: Vec<(String, usize, String)>,
        ops: Vec<TileOp>,
    ) -> (r: Result<TileOp, String>)
        ensures
            (final(l)@, op_outcome(r)) == projection_closed(
                *self.tools,
                self.frame(),
                old(l)@,
                template::maybe(*sep),
                stream@,
                tile_ops::placed_views(generators@),
                tile_ops::op_views(ops@),
            ),
    {
        match l.body.take() {
            None => Err(chars::string_of(&Vec::new())),
            Some(b) => {
                let source: String = program_text(&b);
                match self.tools.check_body(source.as_str()) {
                    Some(e) => {
                        let mut m: String = self.open_message("': projection body: ");
                        m.append(e.as_str());
                        return Err(m);
                    },
                    None => {},
                }
                let child: usize = l.children.len();
                let ghost before = l.children@;
                let ghost shown = ChildV { source: source@, cascade: b@.cascade };
                l.children.push(ChildSpec { source, cascade: b.cascade });
                assert(tile_ops::child_views(l.children@) =~= tile_ops::child_views(before).push(
                    shown,
                ));
                let sep: String = match sep {
                    Some(s) => s.clone(),
                    None => if *self.encoding.as_str() == *"json" || *self.encoding.as_str()
                        == *"csv" {
                        ",".to_owned()
                    } else {
                        "".to_owned()
                    },
                };
                Ok(TileOp::Repeat { stream, child, sep, body: ops, generators })
            },
        }
    }

    /// Lowers a projection outside any body.
    fn lower_projection(
        &self,
        l: &mut Lowering,
        source: &ForSource,
        sep: &Option<String>,
        body: &Vec<TilePiece>,
    ) -> (r: Result<TileOp, String>)
        ensures
            (final(l)@, op_outcome(r)) == projection_lowered(
                *self.tools,
                self.frame(),
                old(l)@,
                source@,
                template::maybe(*sep),
                template::piece_views(body@),
            ),
        decreases body, 2nat,
    {
        let c: Comprehension = match self.tools.resolve_source(source, self.producers) {
            Err(e) => {
                let mut m: String = self.open_message("': projection: ");
                m.append(e.as_str());
                return Err(m);
            },
            Ok(c) => c,
        };
        match self.check_bounded(&c, source.text.as_str()) {
            Err(e) => {
                return Err(e);
            },
            Ok(_) => {},
        }
        match self.check_predicates(&c, source.text.as_str()) {
            Err(e) => {
                return Err(e);
            },
            Ok(_) => {},
        }
        let stream: String = self.tools.stream_text(source.text.as_str(), &c);
        let gens: Vec<(String, String)> = tile_source::generator_clauses(&c);
        let probed: Vec<Result<PortType, String>> = self.generator_types(l, &gens);
        let elements: Vec<(String, PortType)> = match self.tools.element_types(&c, &probed) {
            Err(e) => {
                let mut m: String = self.open_message("': projection `for ");
                m.append(source.text.as_str());
                m.append("`: ");
                m.append(e.as_str());
                return Err(m);
            },
            Ok(v) => v,
        };
        let generators: Vec<(String, usize, String)> = match self.lower_generators(
            l,
            source.text.as_str(),
            &elements,
            &gens,
        ) {
            Err(e) => {
                return Err(e);
            },
            Ok(v) => v,
        };
        let saved: bool = l.in_string;
        let ghost mid = l@;
        let b: BodyContext = BodyContext {
            elements,
            bindings: Vec::new(),
            cascade: Vec::new(),
            producers: Vec::new(),
            names: Vec::new(),
        };
        assert(b@ =~= new_body(b@.elements));
        l.body = Some(b);
        assert(l@ =~= (LowerV { body: Some(new_body(b@.elements)), ..mid }));
        let ops: Vec<TileOp> = match self.lower_pieces(l, body) {
            Err(e) => {
                return Err(e);
            },
            Ok(v) => v,
        };
        l.in_string = saved;
        self.close_projection(l, sep, stream, generators, ops)
    }

    /// Lowers a branch.
    fn lower_branch(&self, l: &mut Lowering, piece: &TilePiece) -> (r: Result<TileOp, String>)
        requires
            piece@ is Branch,
        ensures
            (final(l)@, op_outcome(r)) == branch_lowered(
                *self.tools,
                self.frame(),
                old(l)@,
                piece@->Branch_0,
                piece@->Branch_1,
                piece@->Branch_2,
                piece@->Branch_3,
            ),
        decreases piece, 0nat,
    {
        match piece {
            TilePiece::Branch { cond, then: yes, otherwise, span } => {
                let mut text: String = "if ".to_owned();
                text.append(cond.shown.as_str());
                let enc: HoleEncoding = HoleEncoding {
                    encoding: self.encoding.clone(),
                    position: HolePosition::Text,
                    ty: None,
                    format: None,
                    raw: true,
                    cond: true,
                };
                assert(enc@ =~= cond_encoding(self.frame()));
                let x: HoleSource = match self.lower_hole(l, text.as_str(), &cond.expr, enc) {
                    Err(e) => {
                        return Err(e);
                    },
                    Ok(x) => x,
                };
                let saved: bool = l.in_string;
                let first: Vec<TileOp> = match self.lower_pieces(l, yes) {
                    Err(e) => {
                        return Err(e);
                    },
                    Ok(v) => v,
                };
                l.in_string = saved;
                let last: Vec<TileOp> = match otherwise {
                    None => {
                        let none: Vec<TileOp> = Vec::new();
                        assert(tile_ops::op_views(none@) =~= Seq::<OpV>::empty());
                        none
                    },
                    Some(no) => match self.lower_pieces(l, no) {
                        Err(e) => {
                            return Err(e);
                        },
                        Ok(v) => v,
                    },
                };
                l.in_string = saved;
                Ok(TileOp::Branch { cond: x, then: first, otherwise: last })
            },
            _ => Err(chars::string_of(&Vec::new())),
        }
    }

    /// Lowers a run of pieces.
    #[verifier::rlimit(40)]
    fn lower_pieces(&self, l: &mut Lowering, pieces: &Vec<TilePiece>) -> (r: Result<
        Vec<TileOp>,
        String,
    >)
        ensures
            (final(l)@, ops_outcome(r)) == pieces_lowered(
                *self.tools,
                self.frame(),
                old(l)@,
                template::piece_views(pieces@),
                0,
                Seq::empty(),
                Seq::empty(),
            ),
        decreases pieces, 1nat,
    {
        let ghost all = template::piece_views(pieces@);
        let ghost f = self.frame();
        let ghost goal = pieces_lowered(
            *self.tools,
            f,
            l@,
            all,
            0,
            Seq::empty(),
            Seq::empty(),
        );
        let mut ops: Vec<TileOp> = Vec::new();
        let mut buf: String = "".to_owned();
        let mut i: usize = 0;
        proof {
            template::lemma_piece_views(pieces@);
            reveal_strlit("");
            assert(buf@ =~= Seq::<char>::empty());
            assert(tile_ops::op_views(ops@) =~= Seq::<OpV>::empty());
        }
        while i < pieces.len()
            invariant
                i <= pieces@.len(),
                f == self.frame(),
                all == template::piece_views(pieces@),
                all.len() == pieces@.len(),
                forall|k: int|
                    0 <= k < pieces@.len() ==> #[trigger] all[k] == template::piece_view(
                        pieces@[k],
                    ),
                goal == pieces_lowered(
                    *self.tools,
                    f,
                    old(l)@,
                    all,
                    0,
                    Seq::empty(),
                    Seq::empty(),
                ),
                goal == pieces_lowered(
                    *self.tools,
                    f,
                    l@,
                    all,
                    i as int,
                    buf@,
                    tile_ops::op_views(ops@),
                ),
            decreases pieces.len() - i,
        {
            assert(decreases_to!(pieces@ => pieces@[i as int]));
            assert(decreases_to!(*pieces => pieces@));
            assert(all[i as int] == template::piece_view(pieces@[i as int]));
            match &pieces[i] {
                TilePiece::Static(s) => {
                    if *self.encoding.as_str() == *"json" {
                        l.in_string = track_string_state(s.as_str(), l.in_string);
                    }
                    buf.append(s.as_str());
                },
                TilePiece::Hole(h) => {
                    flush(buf.as_str(), &mut ops);
                    let enc: HoleEncoding = HoleEncoding {
                        encoding: self.encoding.clone(),
                        position: self.position(l),
                        ty: template::copy_maybe(&h.decl_type),
                        format: template::copy_maybe(&h.format),
                        raw: h.raw,
                        cond: false,
                    };
                    assert(enc@ =~= hole_encoding(f, l@, h@));
                    match self.lower_hole(l, h.text.as_str(), &h.expr, enc) {
                        Err(e) => {
                            return Err(e);
                        },
                        Ok(x) => {
                            tile_ops::push_op(&mut ops, TileOp::Hole(x));
                        },
                    }
                    buf = "".to_owned();
                    proof {
                        reveal_strlit("");
                        assert(buf@ =~= Seq::<char>::empty());
                    }
                },
                TilePiece::Branch { .. } => {
                    flush(buf.as_str(), &mut ops);
                    match self.lower_branch(l, &pieces[i]) {
                        Err(e) => {
                            return Err(e);
                        },
                        Ok(x) => {
                            tile_ops::push_op(&mut ops, x);
                        },
                    }
                    buf = "".to_owned();
                    proof {
                        reveal_strlit("");
                        assert(buf@ =~= Seq::<char>::empty());
                    }
                },
                TilePiece::Projection { source, sep, body, span } => {
                    flush(buf.as_str(), &mut ops);
                    let op: Result<TileOp, String> = if l.body.is_some() {
                        self.nested_projection(l, &pieces[i])
                    } else {
                        assert(decreases_to!(pieces@[i as int] => *body));
                        self.lower_projection(l, source, sep, body)
                    };
                    match op {
                        Err(e) => {
                            return Err(e);
                        },
                        Ok(x) => {
                            tile_ops::push_op(&mut ops, x);
                        },
                    }
                    buf = "".to_owned();
                    proof {
                        reveal_strlit("");
                        assert(buf@ =~= Seq::<char>::empty());
                    }
                },
            }
            i = i + 1;
        }
        flush(buf.as_str(), &mut ops);
        Ok(ops)
    }
}

// ---------------------------------------------------------------------
// The whole template
// ---------------------------------------------------------------------

/// What outlives the lowering of a template.
#[derive(Debug)]
pub struct TileBook {
    /// The templates that were lowered.
    pub tiles: Vec<TileDef>,
    /// The producers that are bound.
    pub producers: Vec<Producer>,
    /// What was reported.
    pub events: Vec<CompileEvent>,
}

/// The content of what outlives the lowering of a template.
#[verifier::ext_equal]
pub struct BookV {
    pub tiles: Seq<TileDefV>,
    pub producers: Seq<ProducerV>,
    pub events: Seq<EventV>,
}

impl View for TileBook {
    type V = BookV;

    open spec fn view(&self) -> BookV {
        BookV {
            tiles: template::tile_views(self.tiles@),
            producers: producer_views(self.producers@),
            events: events::event_views(self.events@),
        }
    }
}

/// What does not change while a template is lowered.
pub open spec fn frame_of(c: CompilerV, book: BookV, d: TileDefV) -> FrameV {
    FrameV {
        tile: d.name,
        encoding: encoding_or_text(d.encoding),
        options: d.options,
        strict: c.strict || d.options.strict,
        span: d.span,
        producers: book.producers,
    }
}

/// The state that the lowering of a template begins with.
pub open spec fn begun(c: CompilerV, book: BookV) -> LowerV {
    LowerV {
        c,
        inputs: Seq::empty(),
        children: Seq::empty(),
        names: Seq::empty(),
        in_string: false,
        body: None,
        events: book.events,
    }
}

/// The sources of a run of bodies.
pub open spec fn child_sources(s: Seq<ChildV>) -> Seq<Seq<char>> {
    Seq::new(s.len(), |i: int| s[i].source)
}

/// The report on a template.
pub open spec fn compiled_event(s: TileSpecV) -> EventV {
    let shape = tile_ops::shape_of(s.ops);
    EventV::TileCompiled(
        CompiledV {
            tile: s.name,
            encoding: s.encoding,
            statics: tile_ops::capped(shape.statics),
            static_bytes: tile_ops::capped(shape.static_bytes),
            holes: tile_ops::capped(shape.holes),
            branches: tile_ops::capped(shape.branches),
            projections: tile_ops::capped(shape.projections),
            bodies: child_sources(s.children),
        },
    )
}

/// The arguments of the call that a template becomes: how it is written, and
/// the wires that are handed to it.
pub open spec fn render_args(text: Seq<char>, inputs: Seq<Seq<char>>, span: Span) -> Seq<ArgV> {
    seq![ArgV { name: None, value: ExprV::StringLit(text, span) }] + Seq::new(
        inputs.len(),
        |i: int| ArgV { name: None, value: ExprV::Ident(inputs[i], span) },
    )
}

/// Lowers a template.
pub open spec fn tile_lowered<T: TileTools>(t: T, c: CompilerV, book: BookV, d: TileDefV) -> (
    CompilerV,
    BookV,
    Result<(), Seq<char>>,
) {
    let f = frame_of(c, book, d);
    match spliced(book.tiles, d.pieces, d.name, f.encoding, 0) {
        Err(e) => (c, book, Err(e)),
        Ok(pieces) => {
            let (l, r) = pieces_lowered(
                t,
                f,
                begun(c, book),
                pieces,
                0,
                Seq::empty(),
                Seq::empty(),
            );
            match r {
                Err(e) => (l.c, BookV { events: l.events, ..book }, Err(e)),
                Ok(ops) => {
                    let s = TileSpecV {
                        name: d.name,
                        encoding: f.encoding,
                        ops,
                        children: l.children,
                    };
                    let told = BookV { events: l.events.push(compiled_event(s)), ..book };
                    let call = ExprV::Call(
                        "tile_render"@,
                        render_args(t.written(s), l.inputs, d.span),
                        d.span,
                    );
                    let (c1, r) = binding::bound(t, l.c, seq![d.name], call);
                    match r {
                        Err(e) => (c1, told, Err(e)),
                        Ok(_) => (
                            if l.inputs.len() == 0 {
                                CompilerV {
                                    graph: c1.graph.with_const(d.name).with_modifier(
                                        d.name,
                                        BindingModifier::plain().with(WireModifier::Const),
                                    ),
                                    ..c1
                                }
                            } else {
                                c1
                            },
                            BookV { tiles: told.tiles.push(d), ..told },
                            Ok(()),
                        ),
                    }
                },
            }
        },
    }
}

/// The sources of a run of bodies.
fn copy_sources(v: &Vec<ChildSpec>) -> (r: Vec<String>)
    ensures
        chars::texts(r@) == child_sources(tile_ops::child_views(v@)),
{
    let mut out: Vec<String> = Vec::new();
    let mut i: usize = 0;
    while i < v.len()
        invariant
            i <= v@.len(),
            out@.len() == i,
            forall|k: int| 0 <= k < i ==> (#[trigger] out@[k])@ == v@[k].source@,
        decreases v.len() - i,
    {
        out.push(v[i].source.clone());
        i = i + 1;
    }
    assert(chars::texts(out@) =~= child_sources(tile_ops::child_views(v@)));
    out
}

/// The arguments of the call that a template becomes.
fn build_args(text: String, inputs: &Vec<String>, span: Span) -> (r: Vec<Arg>)
    ensures
        ast::arg_views(r@) == render_args(text@, chars::texts(inputs@), span),
{
    let ghost shown = render_args(text@, chars::texts(inputs@), span);
    let mut out: Vec<Arg> = Vec::new();
    let first: Expr = Expr::StringLit(text, span);
    assert(first@ == ExprV::StringLit(text@, span));
    out.push(Arg::Positional(first));
    let mut i: usize = 0;
    assert(ast::arg_view(out@[0]) == shown[0]);
    while i < inputs.len()
        invariant
            i <= inputs@.len(),
            out@.len() == i + 1,
            shown == render_args(text@, chars::texts(inputs@), span),
            forall|k: int| 0 <= k < i + 1 ==> ast::arg_view(#[trigger] out@[k]) == shown[k],
        decreases inputs.len() - i,
    {
        let ghost before = out@;
        let e: Expr = Expr::Ident(inputs[i].clone(), span);
        assert(e@ == ExprV::Ident(inputs@[i as int]@, span));
        out.push(Arg::Positional(e));
        assert(ast::arg_view(out@[i + 1]) == shown[i + 1]);
        assert forall|k: int| 0 <= k < i + 2 implies ast::arg_view(#[trigger] out@[k])
            == shown[k] by {
            if k < i + 1 {
                assert(out@[k] == before[k]);
            }
        }
        i = i + 1;
    }
    proof {
        ast::lemma_arg_views(out@);
        assert(ast::arg_views(out@) =~= shown);
    }
    out
}

impl Compiler {
    /// Lowers a template, and notes it in `book` for later ones to splice.
    pub fn compile_tile<T: TileTools>(
        &mut self,
        tools: &T,
        book: &mut TileBook,
        tile: &TileDef,
    ) -> (r: Result<(), String>)
        ensures
            (final(self)@, final(book)@, compiler::told(r)) == tile_lowered(
                *tools,
                old(self)@,
                old(book)@,
                tile@,
            ),
    {
        let ghost c0 = self@;
        let ghost b0 = book@;
        let ghost f = frame_of(c0, b0, tile@);
        let encoding: String = or_text(&tile.encoding);
        let pieces: Vec<TilePiece> = match splice_tiles(
            &book.tiles,
            &tile.pieces,
            tile.name.as_str(),
            encoding.as_str(),
            0,
        ) {
            Err(e) => {
                return Err(e);
            },
            Ok(v) => v,
        };
        let strict: bool = self.strict || tile.options.strict;
        let mut l: Lowering = Lowering {
            compiler: Compiler::new(false),
            inputs: Vec::new(),
            children: Vec::new(),
            names: Vec::new(),
            in_string: false,
            body: None,
            events: Vec::new(),
        };
        std::mem::swap(&mut l.compiler, self);
        std::mem::swap(&mut l.events, &mut book.events);
        assert(l@ =~= begun(c0, b0));
        let frame: TileFrame<T> = TileFrame {
            tools,
            producers: &book.producers,
            tile_name: tile.name.clone(),
            encoding: encoding.clone(),
            options: tile.options.copy(),
            strict,
            span: tile.span,
        };
        assert(frame.frame() =~= f);
        let ops: Result<Vec<TileOp>, String> = frame.lower_pieces(&mut l, &pieces);
        let ghost mid = l@;
        std::mem::swap(&mut l.compiler, self);
        std::mem::swap(&mut l.events, &mut book.events);
        let ops: Vec<TileOp> = match ops {
            Err(e) => {
                assert(book@ =~= (BookV { events: mid.events, ..b0 }));
                return Err(e);
            },
            Ok(v) => v,
        };
        let spec: TileSpec = TileSpec {
            name: tile.name.clone(),
            encoding,
            ops,
            children: l.children,
        };
        let mut shape: SkeletonShape = SkeletonShape {
            statics: 0,
            static_bytes: 0,
            holes: 0,
            branches: 0,
            projections: 0,
        };
        shape.count(&spec.ops);
        let e: CompileEvent = CompileEvent::TileCompiled {
            tile: tile.name.clone(),
            encoding: spec.encoding.clone(),
            statics: shape.statics,
            static_bytes: shape.static_bytes,
            holes: shape.holes,
            branches: shape.branches,
            projections: shape.projections,
            bodies: copy_sources(&spec.children),
        };
        assert(e@ =~= compiled_event(spec@));
        let ghost before = book.events@;
        let ghost shown = e@;
        book.events.push(e);
        assert(events::event_views(book.events@) =~= events::event_views(before).push(shown));
        let ghost told = book@;
        assert(told =~= (BookV { events: mid.events.push(compiled_event(spec@)), ..b0 }));
        let args: Vec<Arg> = build_args(tools.spec_text(&spec), &l.inputs, tile.span);
        let call: Expr = Expr::Call(
            CallExpr { func: "tile_render".to_owned(), args, span: tile.span },
        );
        let names: Vec<String> = compiler::one_name(tile.name.as_str());
        match self.compile_binding(tools, &names, &call) {
            Err(e) => {
                return Err(e);
            },
            Ok(_) => {},
        }
        if l.inputs.len() == 0 {
            self.graph.mark_const_output(tile.name.as_str());
            self.graph.set_output_modifier(
                tile.name.as_str(),
                BindingModifier::only(WireModifier::Const),
            );
        }
        let ghost earlier = book.tiles@;
        book.tiles.push(tile.copy());
        assert(template::tile_views(book.tiles@) =~= template::tile_views(earlier).push(tile@));
        Ok(())
    }
}

} // verus!
