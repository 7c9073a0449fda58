//! What holds of every template that is lowered.
use crate::dsl::ast::Span;
use crate::dsl::binding;
use crate::dsl::compiler::CompilerV;
use crate::dsl::template::{
    ForSourceV, OptionsV, PieceV, ReadingV, TileBodyKind, TileDefV,
};
use crate::dsl::tile::Grammar;
use crate::dsl::tile_lower;
use crate::dsl::tile_lower::{BookV, FrameV, LowerV, TileTools};
use crate::dsl::tile_ops::{EncodingV, HoleSourceV, OpV};
use crate::dsl::tile_structural;
use crate::dsl::{refs, tile_source};
use crate::value::{JsonV, PortType};
use vstd::prelude::*;

verus! {

/// A document gives the template that its text gives.
pub proof fn law_forms_agree<G: Grammar>(
    g: G,
    name: Seq<char>,
    v: JsonV,
    o: OptionsV,
    span: Span,
)
    requires
        tile_structural::tile_of_document(g, name, v, o, span) is Ok,
    ensures
        ({
            let d = tile_structural::tile_of_document(g, name, v, o, span)->Ok_0;
            tile_structural::tile_of(
                g,
                name,
                "json"@,
                d.body,
                o,
                TileBodyKind::Heredoc,
                span,
            ) == Ok::<TileDefV, Seq<char>>(
                TileDefV { body_kind: TileBodyKind::Heredoc, ..d },
            )
        }),
{
}

// ---------------------------------------------------------------------
// Splicing
// ---------------------------------------------------------------------

/// Whether no hole of a piece names an earlier template of the encoding.
pub open spec fn free_of_splices(tiles: Seq<TileDefV>, encoding: Seq<char>, p: PieceV) -> bool
    decreases p, 0nat,
{
    match p {
        PieceV::Static(_) => true,
        PieceV::Hole(h) => tile_lower::spliced_tile(tiles, h) matches Some(other)
            ==> tile_lower::encoding_or_text(other.encoding) != encoding,
        PieceV::Projection(_, _, body, _) => all_free(tiles, encoding, body),
        PieceV::Branch(_, yes, otherwise, _) => all_free(tiles, encoding, yes) && (otherwise
            matches Some(no) ==> all_free(tiles, encoding, no)),
    }
}

/// Whether no hole of a run of pieces does.
pub open spec fn all_free(tiles: Seq<TileDefV>, encoding: Seq<char>, s: Seq<PieceV>) -> bool
    decreases s, s.len(),
{
    s.len() > 0 ==> all_free(tiles, encoding, s.drop_last()) && free_of_splices(
        tiles,
        encoding,
        s.last(),
    )
}

/// Two free runs make a free run.
proof fn lemma_free_plus(
    tiles: Seq<TileDefV>,
    encoding: Seq<char>,
    a: Seq<PieceV>,
    b: Seq<PieceV>,
)
    requires
        all_free(tiles, encoding, a),
        all_free(tiles, encoding, b),
    ensures
        all_free(tiles, encoding, a + b),
    decreases b.len(),
{
    if b.len() == 0 {
        assert(a + b =~= a);
    } else {
        lemma_free_plus(tiles, encoding, a, b.drop_last());
        assert((a + b).drop_last() =~= a + b.drop_last());
    }
}

/// A free run with a free piece is free.
proof fn lemma_free_push(tiles: Seq<TileDefV>, encoding: Seq<char>, a: Seq<PieceV>, p: PieceV)
    requires
        all_free(tiles, encoding, a),
        free_of_splices(tiles, encoding, p),
    ensures
        all_free(tiles, encoding, a.push(p)),
{
    assert(a.push(p).drop_last() =~= a);
}

/// Splicing leaves nothing to splice: no hole of what comes out names an
/// earlier template of the same encoding.
pub proof fn law_splicing_is_complete(
    tiles: Seq<TileDefV>,
    ps: Seq<PieceV>,
    current: Seq<char>,
    encoding: Seq<char>,
    depth: nat,
)
    ensures
        tile_lower::spliced(tiles, ps, current, encoding, depth) matches Ok(out) ==> all_free(
            tiles,
            encoding,
            out,
        ),
    decreases 17 - depth, ps.len(),
{
    if depth <= 16 && ps.len() > 0 {
        law_splicing_is_complete(tiles, ps.drop_last(), current, encoding, depth);
        match tile_lower::spliced(tiles, ps.drop_last(), current, encoding, depth) {
            Err(_) => {},
            Ok(front) => match ps.last() {
                PieceV::Static(_) => {
                    lemma_free_push(tiles, encoding, front, ps.last());
                },
                PieceV::Hole(h) => match tile_lower::spliced_tile(tiles, h) {
                    Some(other) => {
                        if other.name != current && tile_lower::encoding_or_text(other.encoding)
                            == encoding {
                            law_splicing_is_complete(
                                tiles,
                                other.pieces,
                                other.name,
                                encoding,
                                depth + 1,
                            );
                            match tile_lower::spliced(
                                tiles,
                                other.pieces,
                                other.name,
                                encoding,
                                depth + 1,
                            ) {
                                Ok(inner) => {
                                    lemma_free_plus(tiles, encoding, front, inner);
                                },
                                Err(_) => {},
                            }
                        } else if other.name != current {
                            lemma_free_push(tiles, encoding, front, ps.last());
                        }
                    },
                    None => {
                        lemma_free_push(tiles, encoding, front, ps.last());
                    },
                },
                PieceV::Projection(source, sep, body, span) => {
                    law_splicing_is_complete(tiles, body, current, encoding, depth + 1);
                    match tile_lower::spliced(tiles, body, current, encoding, depth + 1) {
                        Ok(inner) => {
                            lemma_free_push(
                                tiles,
                                encoding,
                                front,
                                PieceV::Projection(source, sep, inner, span),
                            );
                        },
                        Err(_) => {},
                    }
                },
                PieceV::Branch(cond, yes, otherwise, span) => {
                    law_splicing_is_complete(tiles, yes, current, encoding, depth + 1);
                    match tile_lower::spliced(tiles, yes, current, encoding, depth + 1) {
                        Err(_) => {},
                        Ok(first) => match otherwise {
                            None => {
                                lemma_free_push(
                                    tiles,
                                    encoding,
                                    front,
                                    PieceV::Branch(cond, first, None, span),
                                );
                            },
                            Some(no) => {
                                law_splicing_is_complete(tiles, no, current, encoding, depth + 1);
                                match tile_lower::spliced(
                                    tiles,
                                    no,
                                    current,
                                    encoding,
                                    depth + 1,
                                ) {
                                    Ok(last) => {
                                        lemma_free_push(
                                            tiles,
                                            encoding,
                                            front,
                                            PieceV::Branch(cond, first, Some(last), span),
                                        );
                                    },
                                    Err(_) => {},
                                }
                            },
                        },
                    }
                },
            },
        }
    }
}

// ---------------------------------------------------------------------
// Operands
// ---------------------------------------------------------------------

/// Whether a wire is one of the first `n` inputs.
pub open spec fn source_placed(x: HoleSourceV, n: nat) -> bool {
    x matches HoleSourceV::Wire(i) ==> i < n
}

/// Whether every name is tied to one of the first `n` inputs.
pub open spec fn names_placed(s: Seq<(Seq<char>, nat, Seq<char>)>, n: nat) -> bool {
    forall|i: int| 0 <= i < s.len() ==> (#[trigger] s[i]).1 < n
}

/// Whether a step reads nothing but the first `n` inputs and the first `k`
/// bodies.
pub open spec fn op_placed(op: OpV, n: nat, k: nat) -> bool
    decreases op, 0nat,
{
    match op {
        OpV::Static(_) => true,
        OpV::Hole(x) => source_placed(x, n),
        OpV::Branch(x, yes, no) => source_placed(x, n) && ops_placed(yes, n, k) && ops_placed(
            no,
            n,
            k,
        ),
        OpV::Repeat(r, body) => r.child < k && names_placed(r.generators, n) && ops_placed(
            body,
            n,
            k,
        ),
    }
}

/// Whether a run of steps does.
pub open spec fn ops_placed(s: Seq<OpV>, n: nat, k: nat) -> bool
    decreases s, s.len(),
{
    s.len() > 0 ==> ops_placed(s.drop_last(), n, k) && op_placed(s.last(), n, k)
}

/// Whether what a state has noted reads nothing but its inputs.
pub open spec fn state_placed(l: LowerV) -> bool {
    &&& l.body matches Some(b) ==> names_placed(b.cascade, l.inputs.len())
    &&& forall|i: int|
        0 <= i < l.children.len() ==> names_placed(
            (#[trigger] l.children[i]).cascade,
            l.inputs.len(),
        )
}

/// Whether a state has at least what another has.
pub open spec fn grown(a: LowerV, b: LowerV) -> bool {
    a.inputs.len() <= b.inputs.len() && a.children.len() <= b.children.len()
}

/// A step that reads few inputs reads no more of many.
proof fn lemma_op_more(op: OpV, n: nat, k: nat, n2: nat, k2: nat)
    requires
        op_placed(op, n, k),
        n <= n2,
        k <= k2,
    ensures
        op_placed(op, n2, k2),
    decreases op, 0nat,
{
    match op {
        OpV::Branch(_, yes, no) => {
            lemma_ops_more(yes, n, k, n2, k2);
            lemma_ops_more(no, n, k, n2, k2);
        },
        OpV::Repeat(_, body) => {
            lemma_ops_more(body, n, k, n2, k2);
        },
        _ => {},
    }
}

/// The same of a run of steps.
proof fn lemma_ops_more(s: Seq<OpV>, n: nat, k: nat, n2: nat, k2: nat)
    requires
        ops_placed(s, n, k),
        n <= n2,
        k <= k2,
    ensures
        ops_placed(s, n2, k2),
    decreases s, s.len(),
{
    if s.len() > 0 {
        lemma_ops_more(s.drop_last(), n, k, n2, k2);
        lemma_op_more(s.last(), n, k, n2, k2);
    }
}

/// A run with one more step.
proof fn lemma_ops_push(s: Seq<OpV>, op: OpV, n: nat, k: nat)
    requires
        ops_placed(s, n, k),
        op_placed(op, n, k),
    ensures
        ops_placed(s.push(op), n, k),
{
    assert(s.push(op).drop_last() =~= s);
}

/// The place of a name is one of the inputs that it is among.
proof fn lemma_place(s: Seq<Seq<char>>, name: Seq<char>, i: int)
    requires
        0 <= i <= s.len(),
    ensures
        i <= tile_lower::place_in(s, name, i) <= s.len(),
    decreases s.len() - i,
{
    if i < s.len() && s[i] != name {
        lemma_place(s, name, i + 1);
    }
}

/// An input that is added has its place.
proof fn lemma_with_input(s: Seq<Seq<char>>, name: Seq<char>)
    ensures
        s.len() <= tile_lower::with_input(s, name).len(),
        0 <= tile_lower::place_in(s, name, 0) < tile_lower::with_input(s, name).len(),
{
    lemma_place(s, name, 0);
}

/// Making an outer name available keeps the state in place.
proof fn lemma_cascaded_ref(l: LowerV, r: Seq<char>)
    requires
        state_placed(l),
    ensures
        state_placed(tile_lower::cascaded_ref(l, r)),
        grown(l, tile_lower::cascaded_ref(l, r)),
        tile_lower::cascaded_ref(l, r).children == l.children,
        tile_lower::cascaded_ref(l, r).body is Some == l.body is Some,
{
    lemma_with_input(l.inputs, r);
}

/// The same of a run of names.
proof fn lemma_cascaded(l: LowerV, names: Seq<Seq<char>>)
    requires
        state_placed(l),
    ensures
        state_placed(tile_lower::cascaded(l, names)),
        grown(l, tile_lower::cascaded(l, names)),
        tile_lower::cascaded(l, names).children == l.children,
        tile_lower::cascaded(l, names).body is Some == l.body is Some,
    decreases names.len(),
{
    if names.len() > 0 {
        lemma_cascaded(l, names.drop_last());
        lemma_cascaded_ref(tile_lower::cascaded(l, names.drop_last()), names.last());
    }
}

/// The same of what the expressions of generators refer to.
proof fn lemma_cascaded_generators<T: TileTools>(
    t: T,
    l: LowerV,
    gens: Seq<(Seq<char>, Seq<char>)>,
)
    requires
        state_placed(l),
    ensures
        state_placed(tile_lower::cascaded_generators(t, l, gens)),
        grown(l, tile_lower::cascaded_generators(t, l, gens)),
    decreases gens.len(),
{
    if gens.len() > 0 {
        lemma_cascaded_generators(t, l, gens.drop_last());
        let front = tile_lower::cascaded_generators(t, l, gens.drop_last());
        match t.expression(gens.last().1) {
            Ok(x) => {
                lemma_cascaded(front, refs::sorted(refs::references(x.expr)));
            },
            Err(_) => {},
        }
    }
}

/// The text of a hole comes from an input that is there.
proof fn lemma_hole<T: TileTools>(
    t: T,
    f: FrameV,
    l: LowerV,
    text: Seq<char>,
    e: crate::dsl::ast::ExprV,
    enc: EncodingV,
)
    requires
        state_placed(l),
    ensures
        ({
            let (l1, r) = tile_lower::hole_lowered(t, f, l, text, e, enc);
            &&& state_placed(l1)
            &&& grown(l, l1)
            &&& r matches Ok(x) ==> source_placed(x, l1.inputs.len())
        }),
{
    if l.body is Some {
        lemma_cascaded(l, refs::sorted(refs::references(e)));
    } else {
        lemma_with_input(l.inputs, tile_lower::next_name(f, l, "h"@));
    }
}

/// A nested projection keeps the state in place.
proof fn lemma_nested<T: TileTools>(
    t: T,
    f: FrameV,
    l: LowerV,
    source: ForSourceV,
    sep: Option<Seq<char>>,
    body: Seq<PieceV>,
)
    requires
        state_placed(l),
    ensures
        ({
            let (l1, r) = tile_lower::nested_lowered(t, f, l, source, sep, body);
            &&& state_placed(l1)
            &&& grown(l, l1)
            &&& r matches Ok(op) ==> op_placed(op, l1.inputs.len(), l1.children.len())
        }),
{
    match t.resolved(source, f.producers) {
        Err(_) => {},
        Ok(c) => {
            let gens = tile_source::generators(c);
            lemma_cascaded_generators(t, l, gens);
            let l0 = tile_lower::cascaded_generators(t, l, gens);
            match source.producer {
                Some(name) => match tile_lower::producer_named(f.producers, name) {
                    Some(p) => {
                        lemma_cascaded(l0, tile_source::placeholders(p.source_text, 0));
                    },
                    None => {},
                },
                None => {},
            }
            let (l1, r) = tile_lower::rebound(f, l0, source);
            lemma_cascaded(l1, tile_source::placeholders(source.text, 0));
            let l2 = tile_lower::cascaded(l1, tile_source::placeholders(source.text, 0));
            match t.elements(c, tile_lower::generator_types(t, l, gens)) {
                Ok(elements) => {
                    lemma_cascaded(
                        l2,
                        tile_lower::not_elements(
                            refs::sorted(tile_lower::pieces_refs(t, f.producers, body)),
                            elements,
                        ),
                    );
                },
                Err(_) => {},
            }
        },
    }
}

/// The generators of a source are tied to inputs that are there.
proof fn lemma_generators<T: TileTools>(
    t: T,
    f: FrameV,
    l: LowerV,
    text: Seq<char>,
    elements: Seq<(Seq<char>, PortType)>,
    gens: Seq<(Seq<char>, Seq<char>)>,
    i: int,
    out: Seq<(Seq<char>, nat, Seq<char>)>,
)
    requires
        state_placed(l),
        names_placed(out, l.inputs.len()),
    ensures
        ({
            let (l1, r) = tile_lower::generators_lowered(t, f, l, text, elements, gens, i, out);
            &&& state_placed(l1)
            &&& grown(l, l1)
            &&& r matches Ok(s) ==> names_placed(s, l1.inputs.len())
        }),
    decreases gens.len() - i,
{
    if 0 <= i < gens.len() {
        let (name, expr) = gens[i];
        match t.expression(expr) {
            Ok(x) => {
                let wire = tile_lower::next_name(f, l, "g"@);
                let l1 = tile_lower::took(f, l, "g"@);
                let (c, r) = binding::bound(t, l1.c, seq![wire], x.expr);
                let l2 = LowerV { c, inputs: tile_lower::with_input(l1.inputs, wire), ..l1 };
                lemma_with_input(l1.inputs, wire);
                let next = out.push(
                    (
                        name,
                        tile_lower::place_in(l1.inputs, wire, 0) as nat,
                        match tile_lower::element_type(elements, name) {
                            Some(ty) => crate::value::port_keyword(ty),
                            None => "str"@,
                        },
                    ),
                );
                assert(state_placed(l2));
                assert(names_placed(next, l2.inputs.len()));
                lemma_generators(t, f, l2, text, elements, gens, i + 1, next);
            },
            Err(_) => {},
        }
    }
}

/// Lowering a projection keeps the state in place.
proof fn lemma_projection<T: TileTools>(
    t: T,
    f: FrameV,
    l: LowerV,
    source: ForSourceV,
    sep: Option<Seq<char>>,
    body: Seq<PieceV>,
)
    requires
        state_placed(l),
    ensures
        ({
            let (l1, r) = tile_lower::projection_lowered(t, f, l, source, sep, body);
            &&& state_placed(l1)
            &&& grown(l, l1)
            &&& r matches Ok(op) ==> op_placed(op, l1.inputs.len(), l1.children.len())
        }),
    decreases body, body.len() + 10,
{
    match t.resolved(source, f.producers) {
        Err(_) => {},
        Ok(c) => {
            let gens = tile_source::generators(c);
            match t.elements(c, tile_lower::generator_types(t, l, gens)) {
                Err(_) => {},
                Ok(elements) => {
                    lemma_generators(t, f, l, source.text, elements, gens, 0, Seq::empty());
                    let (l1, r) = tile_lower::generators_lowered(
                        t,
                        f,
                        l,
                        source.text,
                        elements,
                        gens,
                        0,
                        Seq::empty(),
                    );
                    match r {
                        Err(_) => {},
                        Ok(generators) => {
                            let inner = LowerV {
                                body: Some(tile_lower::new_body(elements)),
                                ..l1
                            };
                            assert(state_placed(inner));
                            lemma_operands(
                                t,
                                f,
                                inner,
                                body,
                                0,
                                Seq::empty(),
                                Seq::empty(),
                            );
                            let (l2, r2) = tile_lower::pieces_lowered(
                                t,
                                f,
                                inner,
                                body,
                                0,
                                Seq::empty(),
                                Seq::empty(),
                            );
                            match r2 {
                                Err(_) => {},
                                Ok(ops) => {
                                    lemma_ops_more(
                                        ops,
                                        l2.inputs.len(),
                                        l2.children.len(),
                                        l2.inputs.len(),
                                        l2.children.len() + 1,
                                    );
                                },
                            }
                        },
                    }
                },
            }
        },
    }
}

/// Lowering a branch keeps the state in place.
proof fn lemma_branch<T: TileTools>(
    t: T,
    f: FrameV,
    l: LowerV,
    cond: ReadingV,
    yes: Seq<PieceV>,
    otherwise: Option<Seq<PieceV>>,
    span: Span,
)
    requires
        state_placed(l),
    ensures
        ({
            let (l1, r) = tile_lower::branch_lowered(t, f, l, cond, yes, otherwise, span);
            &&& state_placed(l1)
            &&& grown(l, l1)
            &&& r matches Ok(op) ==> op_placed(op, l1.inputs.len(), l1.children.len())
        }),
    decreases PieceV::Branch(cond, yes, otherwise, span), 1nat,
{
    let p = PieceV::Branch(cond, yes, otherwise, span);
    assert(decreases_to!(p => p->Branch_1));
    assert(decreases_to!(p => p->Branch_2));
    let enc = tile_lower::cond_encoding(f);
    lemma_hole(t, f, l, "if "@ + cond.shown, cond.expr, enc);
    let (l1, r) = tile_lower::hole_lowered(t, f, l, "if "@ + cond.shown, cond.expr, enc);
    if r is Ok {
        lemma_operands(t, f, l1, yes, 0, Seq::empty(), Seq::empty());
        let (l2, r2) = tile_lower::pieces_lowered(t, f, l1, yes, 0, Seq::empty(), Seq::empty());
        let l3 = LowerV { in_string: l1.in_string, ..l2 };
        assert(state_placed(l3));
        match (r2, otherwise) {
            (Ok(first), Some(no)) => {
                lemma_operands(t, f, l3, no, 0, Seq::empty(), Seq::empty());
                let (l4, r4) = tile_lower::pieces_lowered(
                    t,
                    f,
                    l3,
                    no,
                    0,
                    Seq::empty(),
                    Seq::empty(),
                );
                lemma_ops_more(
                    first,
                    l2.inputs.len(),
                    l2.children.len(),
                    l4.inputs.len(),
                    l4.children.len(),
                );
            },
            _ => {},
        }
    }
}

/// Lowering pieces keeps the state and the steps in place.
proof fn lemma_operands<T: TileTools>(
    t: T,
    f: FrameV,
    l: LowerV,
    ps: Seq<PieceV>,
    i: int,
    buf: Seq<char>,
    ops: Seq<OpV>,
)
    requires
        state_placed(l),
        ops_placed(ops, l.inputs.len(), l.children.len()),
    ensures
        ({
            let (l1, r) = tile_lower::pieces_lowered(t, f, l, ps, i, buf, ops);
            &&& state_placed(l1)
            &&& grown(l, l1)
            &&& r matches Ok(out) ==> ops_placed(out, l1.inputs.len(), l1.children.len())
        }),
    decreases
            ps,
            if 0 <= i < ps.len() {
                (ps.len() - i + 2) as nat
            } else {
                2nat
            },
{
    let n = l.inputs.len();
    let k = l.children.len();
    let held = tile_lower::with_text(ops, buf);
    if buf.len() > 0 {
        lemma_ops_push(ops, OpV::Static(buf), n, k);
    }
    if 0 <= i < ps.len() {
        assert(decreases_to!(ps => ps[i]));
        match ps[i] {
            PieceV::Static(s) => {
                let l1 = if f.encoding == "json"@ {
                    LowerV {
                        in_string: tile_lower::string_state(s, 0, l.in_string, false),
                        ..l
                    }
                } else {
                    l
                };
                assert(state_placed(l1));
                lemma_operands(t, f, l1, ps, i + 1, buf + s, ops);
            },
            PieceV::Hole(h) => {
                let enc = tile_lower::hole_encoding(f, l, h);
                lemma_hole(t, f, l, h.text, h.expr, enc);
                let (l1, r) = tile_lower::hole_lowered(t, f, l, h.text, h.expr, enc);
                match r {
                    Ok(x) => {
                        lemma_ops_more(held, n, k, l1.inputs.len(), l1.children.len());
                        lemma_ops_push(held, OpV::Hole(x), l1.inputs.len(), l1.children.len());
                        lemma_operands(
                            t,
                            f,
                            l1,
                            ps,
                            i + 1,
                            Seq::empty(),
                            held.push(OpV::Hole(x)),
                        );
                    },
                    Err(_) => {},
                }
            },
            PieceV::Branch(cond, yes, otherwise, span) => {
                lemma_branch(t, f, l, cond, yes, otherwise, span);
                let (l1, r) = tile_lower::branch_lowered(t, f, l, cond, yes, otherwise, span);
                match r {
                    Ok(op) => {
                        lemma_ops_more(held, n, k, l1.inputs.len(), l1.children.len());
                        lemma_ops_push(held, op, l1.inputs.len(), l1.children.len());
                        lemma_operands(t, f, l1, ps, i + 1, Seq::empty(), held.push(op));
                    },
                    Err(_) => {},
                }
            },
            PieceV::Projection(source, sep, body, _) => {
                let (l1, r) = if l.body is Some {
                    tile_lower::nested_lowered(t, f, l, source, sep, body)
                } else {
                    tile_lower::projection_lowered(t, f, l, source, sep, body)
                };
                if l.body is Some {
                    lemma_nested(t, f, l, source, sep, body);
                } else {
                    lemma_projection(t, f, l, source, sep, body);
                }
                match r {
                    Ok(op) => {
                        lemma_ops_more(held, n, k, l1.inputs.len(), l1.children.len());
                        lemma_ops_push(held, op, l1.inputs.len(), l1.children.len());
                        lemma_operands(t, f, l1, ps, i + 1, Seq::empty(), held.push(op));
                    },
                    Err(_) => {},
                }
            },
        }
    }
}

/// Every step of a template that was lowered reads an input that is handed
/// to it, and repeats a body that is there; every body reads such inputs
/// too.
pub proof fn law_operands_exist<T: TileTools>(
    t: T,
    c: CompilerV,
    book: BookV,
    d: TileDefV,
    pieces: Seq<PieceV>,
)
    ensures
        ({
            let (l, r) = tile_lower::pieces_lowered(
                t,
                tile_lower::frame_of(c, book, d),
                tile_lower::begun(c, book),
                pieces,
                0,
                Seq::empty(),
                Seq::empty(),
            );
            r matches Ok(ops) ==> {
                &&& ops_placed(ops, l.inputs.len(), l.children.len())
                &&& forall|i: int|
                    0 <= i < l.children.len() ==> names_placed(
                        (#[trigger] l.children[i]).cascade,
                        l.inputs.len(),
                    )
            }
        }),
{
    lemma_operands(
        t,
        tile_lower::frame_of(c, book, d),
        tile_lower::begun(c, book),
        pieces,
        0,
        Seq::empty(),
        Seq::empty(),
    );
}

} // verus!
