//! What a template comes to, before and after it is lowered.
//!
//! What stands in a template but is not text is counted through: holes,
//! conditions and projections, each before what stands inside it. A reading
//! says what each of them comes to. Under every reading the steps of a
//! template come to what its pieces come to.
use crate::dsl::ast::{ExprV, Span};
use crate::dsl::refs;
use crate::dsl::template::{ForSourceV, PieceV, ReadingV};
use crate::dsl::tile_lower;
use crate::dsl::tile_lower::{FrameV, LowerV, TileTools};
use crate::dsl::tile_ops::{EncodingV, OpV};
use crate::dsl::tile_source;
use vstd::prelude::*;

verus! {

/// What the things counted in a template come to. The place of a template
/// is empty; that of a body holds, for every projection around it, its
/// number and that of the tuple.
pub struct MeaningV {
    pub text: spec_fn(Seq<nat>, nat) -> Seq<char>,
    pub truth: spec_fn(Seq<nat>, nat) -> bool,
    pub tuples: spec_fn(Seq<nat>, nat) -> nat,
}

/// How many things are counted in a piece.
pub open spec fn piece_size(p: PieceV) -> nat
    decreases p, 0nat,
{
    match p {
        PieceV::Static(_) => 0,
        PieceV::Hole(_) => 1,
        PieceV::Projection(_, _, _, _) => 1,
        PieceV::Branch(_, yes, otherwise, _) => 1 + pieces_size(yes) + match otherwise {
            Some(no) => pieces_size(no),
            None => 0,
        },
    }
}

/// How many things are counted in a run of pieces.
pub open spec fn pieces_size(s: Seq<PieceV>) -> nat
    decreases s, s.len(),
{
    if s.len() == 0 {
        0
    } else {
        pieces_size(s.drop_last()) + piece_size(s.last())
    }
}

/// How many things are counted in a step.
pub open spec fn op_size(op: OpV) -> nat
    decreases op, 0nat,
{
    match op {
        OpV::Static(_) => 0,
        OpV::Hole(_) => 1,
        OpV::Repeat(_, _) => 1,
        OpV::Branch(_, yes, no) => 1 + ops_size(yes) + ops_size(no),
    }
}

/// How many things are counted in a run of steps.
pub open spec fn ops_size(s: Seq<OpV>) -> nat
    decreases s, s.len(),
{
    if s.len() == 0 {
        0
    } else {
        ops_size(s.drop_last()) + op_size(s.last())
    }
}

/// What a piece comes to whose first counted thing has the number `k`. A
/// hole comes to its text; a branch to its first run where its condition
/// holds, else to its second, if it has one; a projection to its body for
/// every tuple, with the separator in between. Inside a body a projection
/// counts as a hole.
pub open spec fn piece_shown(
    m: MeaningV,
    encoding: Seq<char>,
    p: PieceV,
    at: Seq<nat>,
    k: nat,
    inside: bool,
) -> Seq<char>
    decreases p, 0nat, 0nat,
{
    match p {
        PieceV::Static(s) => s,
        PieceV::Hole(_) => (m.text)(at, k),
        PieceV::Branch(_, yes, otherwise, _) => if (m.truth)(at, k) {
            pieces_shown(m, encoding, yes, at, k + 1, inside)
        } else {
            match otherwise {
                Some(no) => pieces_shown(m, encoding, no, at, k + 1 + pieces_size(yes), inside),
                None => Seq::empty(),
            }
        },
        PieceV::Projection(_, sep, body, _) => if inside {
            (m.text)(at, k)
        } else {
            body_shown(
                m,
                encoding,
                body,
                match sep {
                    Some(s) => s,
                    None => if encoding == "json"@ || encoding == "csv"@ {
                        ","@
                    } else {
                        ""@
                    },
                },
                at,
                k,
                (m.tuples)(at, k),
            )
        },
    }
}

/// What a run of pieces comes to.
pub open spec fn pieces_shown(
    m: MeaningV,
    encoding: Seq<char>,
    s: Seq<PieceV>,
    at: Seq<nat>,
    k: nat,
    inside: bool,
) -> Seq<char>
    decreases s, s.len(), 0nat,
{
    if s.len() == 0 {
        Seq::empty()
    } else {
        pieces_shown(m, encoding, s.drop_last(), at, k, inside) + piece_shown(
            m,
            encoding,
            s.last(),
            at,
            k + pieces_size(s.drop_last()),
            inside,
        )
    }
}

/// What a body comes to for the first `n` tuples of its projection.
pub open spec fn body_shown(
    m: MeaningV,
    encoding: Seq<char>,
    body: Seq<PieceV>,
    sep: Seq<char>,
    at: Seq<nat>,
    k: nat,
    n: nat,
) -> Seq<char>
    decreases body, body.len() + 1, n,
{
    if n == 0 {
        Seq::empty()
    } else {
        let one = pieces_shown(m, encoding, body, at + seq![k, (n - 1) as nat], 0, true);
        if n == 1 {
            one
        } else {
            body_shown(m, encoding, body, sep, at, k, (n - 1) as nat) + sep + one
        }
    }
}

/// What a step comes to whose first counted thing has the number `k`.
pub open spec fn op_shown(m: MeaningV, op: OpV, at: Seq<nat>, k: nat) -> Seq<char>
    decreases op, 0nat, 0nat,
{
    match op {
        OpV::Static(s) => s,
        OpV::Hole(_) => (m.text)(at, k),
        OpV::Branch(_, yes, no) => if (m.truth)(at, k) {
            ops_shown(m, yes, at, k + 1)
        } else {
            ops_shown(m, no, at, k + 1 + ops_size(yes))
        },
        OpV::Repeat(r, body) => repeat_shown(m, body, r.sep, at, k, (m.tuples)(at, k)),
    }
}

/// What a run of steps comes to.
pub open spec fn ops_shown(m: MeaningV, s: Seq<OpV>, at: Seq<nat>, k: nat) -> Seq<char>
    decreases s, s.len(), 0nat,
{
    if s.len() == 0 {
        Seq::empty()
    } else {
        ops_shown(m, s.drop_last(), at, k) + op_shown(m, s.last(), at, k + ops_size(s.drop_last()))
    }
}

/// What a run comes to for the first `n` tuples of a stream.
pub open spec fn repeat_shown(
    m: MeaningV,
    body: Seq<OpV>,
    sep: Seq<char>,
    at: Seq<nat>,
    k: nat,
    n: nat,
) -> Seq<char>
    decreases body, body.len() + 1, n,
{
    if n == 0 {
        Seq::empty()
    } else {
        let one = ops_shown(m, body, at + seq![k, (n - 1) as nat], 0);
        if n == 1 {
            one
        } else {
            repeat_shown(m, body, sep, at, k, (n - 1) as nat) + sep + one
        }
    }
}

/// Whether steps come to what pieces come to, wherever they stand.
pub open spec fn alike(m: MeaningV, encoding: Seq<char>, ps: Seq<PieceV>, ops: Seq<OpV>, inside: bool) -> bool {
    &&& ops_size(ops) == pieces_size(ps)
    &&& forall|at: Seq<nat>, k: nat|
        #![trigger ops_shown(m, ops, at, k)]
        ops_shown(m, ops, at, k) == pieces_shown(m, encoding, ps, at, k, inside)
}

/// Whether steps with a text behind them come to what pieces come to.
pub open spec fn alike_with(
    m: MeaningV,
    encoding: Seq<char>,
    ps: Seq<PieceV>,
    ops: Seq<OpV>,
    buf: Seq<char>,
    inside: bool,
) -> bool {
    &&& ops_size(ops) == pieces_size(ps)
    &&& forall|at: Seq<nat>, k: nat|
        #![trigger ops_shown(m, ops, at, k)]
        ops_shown(m, ops, at, k) + buf == pieces_shown(m, encoding, ps, at, k, inside)
}

/// Whether a step comes to what a piece comes to, wherever it stands.
pub open spec fn alike_one(m: MeaningV, encoding: Seq<char>, p: PieceV, op: OpV, inside: bool) -> bool {
    &&& op_size(op) == piece_size(p)
    &&& forall|at: Seq<nat>, k: nat|
        #![trigger op_shown(m, op, at, k)]
        op_shown(m, op, at, k) == piece_shown(m, encoding, p, at, k, inside)
}

/// Text that was gathered becomes a step.
proof fn lemma_with_text(
    m: MeaningV,
    encoding: Seq<char>,
    ps: Seq<PieceV>,
    ops: Seq<OpV>,
    buf: Seq<char>,
    inside: bool,
)
    requires
        alike_with(m, encoding, ps, ops, buf, inside),
    ensures
        alike(m, encoding, ps, tile_lower::with_text(ops, buf), inside),
{
    let out = tile_lower::with_text(ops, buf);
    if buf.len() > 0 {
        assert(out.drop_last() =~= ops);
        assert(out.last() == OpV::Static(buf));
        assert(op_size(OpV::Static(buf)) == 0);
        assert(ops_size(out) == ops_size(ops));
    }
    assert forall|at: Seq<nat>, k: nat|
        #![trigger ops_shown(m, out, at, k)]
        ops_shown(m, out, at, k) == pieces_shown(m, encoding, ps, at, k, inside) by {
        assert(ops_shown(m, ops, at, k) + buf == pieces_shown(m, encoding, ps, at, k, inside));
        if buf.len() == 0 {
            assert(ops_shown(m, ops, at, k) + buf =~= ops_shown(m, ops, at, k));
        } else {
            assert(op_shown(m, OpV::Static(buf), at, k + ops_size(ops)) == buf);
        }
    }
}

/// One more step for one more piece.
proof fn lemma_one_more(
    m: MeaningV,
    encoding: Seq<char>,
    ps: Seq<PieceV>,
    i: int,
    ops: Seq<OpV>,
    op: OpV,
    inside: bool,
)
    requires
        0 <= i < ps.len(),
        alike(m, encoding, ps.take(i), ops, inside),
        alike_one(m, encoding, ps[i], op, inside),
    ensures
        alike_with(m, encoding, ps.take(i + 1), ops.push(op), Seq::empty(), inside),
{
    let out = ops.push(op);
    let next = ps.take(i + 1);
    assert(out.drop_last() =~= ops);
    assert(next.drop_last() =~= ps.take(i));
    assert(next.last() == ps[i]);
    assert forall|at: Seq<nat>, k: nat|
        #![trigger ops_shown(m, out, at, k)]
        ops_shown(m, out, at, k) + Seq::<char>::empty() == pieces_shown(
            m,
            encoding,
            next,
            at,
            k,
            inside,
        ) by {
        assert(ops_shown(m, out, at, k) == ops_shown(m, ops, at, k) + op_shown(
            m,
            op,
            at,
            k + ops_size(ops),
        ));
        assert(ops_shown(m, out, at, k) + Seq::<char>::empty() =~= ops_shown(m, out, at, k));
    }
}

/// A body that is alike is alike for any number of tuples.
proof fn lemma_repeated(
    m: MeaningV,
    encoding: Seq<char>,
    body: Seq<PieceV>,
    ops: Seq<OpV>,
    sep: Seq<char>,
    at: Seq<nat>,
    k: nat,
    n: nat,
)
    requires
        alike(m, encoding, body, ops, true),
    ensures
        repeat_shown(m, ops, sep, at, k, n) == body_shown(m, encoding, body, sep, at, k, n),
    decreases n,
{
    if n > 0 {
        assert(ops_shown(m, ops, at + seq![k, (n - 1) as nat], 0) == pieces_shown(
            m,
            encoding,
            body,
            at + seq![k, (n - 1) as nat],
            0,
            true,
        ));
        if n > 1 {
            lemma_repeated(m, encoding, body, ops, sep, at, k, (n - 1) as nat);
        }
    }
}

/// Making outer names available leaves a body a body.
proof fn lemma_still_inside(l: LowerV, names: Seq<Seq<char>>)
    ensures
        tile_lower::cascaded(l, names).body is Some <==> l.body is Some,
    decreases names.len(),
{
    if names.len() > 0 {
        lemma_still_inside(l, names.drop_last());
    }
}

/// Lowering a hole leaves a body a body.
proof fn lemma_hole_inside<T: TileTools>(
    t: T,
    f: FrameV,
    l: LowerV,
    text: Seq<char>,
    e: ExprV,
    enc: EncodingV,
)
    ensures
        tile_lower::hole_lowered(t, f, l, text, e, enc).0.body is Some <==> l.body is Some,
{
    if l.body is Some {
        lemma_still_inside(l, refs::sorted(refs::references(e)));
    }
}

/// Making what generators refer to available leaves a body a body.
proof fn lemma_generators_inside<T: TileTools>(t: T, l: LowerV, gens: Seq<(Seq<char>, Seq<char>)>)
    ensures
        tile_lower::cascaded_generators(t, l, gens).body is Some <==> l.body is Some,
    decreases gens.len(),
{
    if gens.len() > 0 {
        lemma_generators_inside(t, l, gens.drop_last());
        match t.expression(gens.last().1) {
            Ok(x) => {
                lemma_still_inside(
                    tile_lower::cascaded_generators(t, l, gens.drop_last()),
                    refs::sorted(refs::references(x.expr)),
                );
            },
            Err(_) => {},
        }
    }
}

/// A projection inside a body becomes a hole of the body.
proof fn lemma_nested_alike<T: TileTools>(
    m: MeaningV,
    t: T,
    f: FrameV,
    l: LowerV,
    source: ForSourceV,
    sep: Option<Seq<char>>,
    body: Seq<PieceV>,
    span: Span,
)
    requires
        l.body is Some,
        tile_lower::nested_lowered(t, f, l, source, sep, body).1 is Ok,
    ensures
        ({
            let (l1, r) = tile_lower::nested_lowered(t, f, l, source, sep, body);
            &&& l1.body is Some
            &&& alike_one(m, f.encoding, PieceV::Projection(source, sep, body, span), r->Ok_0, true)
        }),
{
    let p = PieceV::Projection(source, sep, body, span);
    let (l1, r) = tile_lower::nested_lowered(t, f, l, source, sep, body);
    let c = t.resolved(source, f.producers)->Ok_0;
    let gens = tile_source::generators(c);
    let elements = t.elements(c, tile_lower::generator_types(t, l, gens))->Ok_0;
    lemma_generators_inside(t, l, gens);
    let l0 = tile_lower::cascaded_generators(t, l, gens);
    match source.producer {
        Some(name) => match tile_lower::producer_named(f.producers, name) {
            Some(q) => {
                lemma_still_inside(l0, tile_source::placeholders(q.source_text, 0));
            },
            None => {},
        },
        None => {},
    }
    let (a, _) = tile_lower::rebound(f, l0, source);
    lemma_still_inside(a, tile_source::placeholders(source.text, 0));
    let b = tile_lower::cascaded(a, tile_source::placeholders(source.text, 0));
    lemma_still_inside(
        b,
        tile_lower::not_elements(
            refs::sorted(tile_lower::pieces_refs(t, f.producers, body)),
            elements,
        ),
    );
    assert(r->Ok_0 is Hole);
}

/// Generators leave what is outside a body outside.
proof fn lemma_generators_outside<T: TileTools>(
    t: T,
    f: FrameV,
    l: LowerV,
    text: Seq<char>,
    elements: Seq<(Seq<char>, crate::value::PortType)>,
    gens: Seq<(Seq<char>, Seq<char>)>,
    i: int,
    out: Seq<(Seq<char>, nat, Seq<char>)>,
)
    ensures
        tile_lower::generators_lowered(t, f, l, text, elements, gens, i, out).0.body == l.body,
    decreases gens.len() - i,
{
    if 0 <= i < gens.len() {
        let (name, expr) = gens[i];
        match t.expression(expr) {
            Ok(x) => {
                let wire = tile_lower::next_name(f, l, "g"@);
                let l1 = tile_lower::took(f, l, "g"@);
                let (c, r) = crate::dsl::binding::bound(t, l1.c, seq![wire], x.expr);
                let l2 = LowerV { c, inputs: tile_lower::with_input(l1.inputs, wire), ..l1 };
                let next = out.push(
                    (
                        name,
                        tile_lower::place_in(l1.inputs, wire, 0) as nat,
                        match tile_lower::element_type(elements, name) {
                            Some(ty) => crate::value::port_keyword(ty),
                            None => "str"@,
                        },
                    ),
                );
                lemma_generators_outside(t, f, l2, text, elements, gens, i + 1, next);
            },
            Err(_) => {},
        }
    }
}

/// A projection outside any body becomes a step for each tuple.
proof fn lemma_projection_alike<T: TileTools>(
    m: MeaningV,
    t: T,
    f: FrameV,
    l: LowerV,
    source: ForSourceV,
    sep: Option<Seq<char>>,
    body: Seq<PieceV>,
    span: Span,
)
    requires
        l.body is None,
        tile_lower::projection_lowered(t, f, l, source, sep, body).1 is Ok,
    ensures
        ({
            let (l1, r) = tile_lower::projection_lowered(t, f, l, source, sep, body);
            &&& l1.body is None
            &&& alike_one(m, f.encoding, PieceV::Projection(source, sep, body, span), r->Ok_0, false)
        }),
    decreases body, body.len() + 10,
{
    let p = PieceV::Projection(source, sep, body, span);
    let (l9, r9) = tile_lower::projection_lowered(t, f, l, source, sep, body);
    let c = t.resolved(source, f.producers)->Ok_0;
    let gens = tile_source::generators(c);
    let elements = t.elements(c, tile_lower::generator_types(t, l, gens))->Ok_0;
    lemma_generators_outside(t, f, l, source.text, elements, gens, 0, Seq::empty());
    let (l1, r1) = tile_lower::generators_lowered(
        t,
        f,
        l,
        source.text,
        elements,
        gens,
        0,
        Seq::empty(),
    );
    let inner = LowerV { body: Some(tile_lower::new_body(elements)), ..l1 };
    let (l2, r2) = tile_lower::pieces_lowered(t, f, inner, body, 0, Seq::empty(), Seq::empty());
    lemma_lowered_alike(m, t, f, inner, body);
    let ops = r2->Ok_0;
    let op = r9->Ok_0;
    assert(alike(m, f.encoding, body, ops, true));
    assert(op is Repeat && op->Repeat_1 == ops);
    reveal_strlit(",");
    assert forall|at: Seq<nat>, k: nat|
        #![trigger op_shown(m, op, at, k)]
        op_shown(m, op, at, k) == piece_shown(m, f.encoding, p, at, k, false) by {
        lemma_repeated(
            m,
            f.encoding,
            body,
            ops,
            op->Repeat_0.sep,
            at,
            k,
            (m.tuples)(at, k),
        );
    }
}

/// A branch becomes a step that takes the one run or the other.
proof fn lemma_branch_alike<T: TileTools>(
    m: MeaningV,
    t: T,
    f: FrameV,
    l: LowerV,
    cond: ReadingV,
    yes: Seq<PieceV>,
    otherwise: Option<Seq<PieceV>>,
    span: Span,
)
    requires
        tile_lower::branch_lowered(t, f, l, cond, yes, otherwise, span).1 is Ok,
    ensures
        ({
            let (l1, r) = tile_lower::branch_lowered(t, f, l, cond, yes, otherwise, span);
            &&& l1.body is Some <==> l.body is Some
            &&& alike_one(
                m,
                f.encoding,
                PieceV::Branch(cond, yes, otherwise, span),
                r->Ok_0,
                l.body is Some,
            )
        }),
    decreases PieceV::Branch(cond, yes, otherwise, span), 1nat,
{
    let p = PieceV::Branch(cond, yes, otherwise, span);
    assert(decreases_to!(p => p->Branch_1));
    assert(decreases_to!(p => p->Branch_2));
    let enc = tile_lower::cond_encoding(f);
    let inside = l.body is Some;
    lemma_hole_inside(t, f, l, "if "@ + cond.shown, cond.expr, enc);
    let (l1, r) = tile_lower::hole_lowered(t, f, l, "if "@ + cond.shown, cond.expr, enc);
    lemma_lowered_alike(m, t, f, l1, yes);
    let (l2, r2) = tile_lower::pieces_lowered(t, f, l1, yes, 0, Seq::empty(), Seq::empty());
    let first = r2->Ok_0;
    let l3 = LowerV { in_string: l1.in_string, ..l2 };
    let (l9, r9) = tile_lower::branch_lowered(t, f, l, cond, yes, otherwise, span);
    let op = r9->Ok_0;
    match otherwise {
        Some(no) => {
            lemma_lowered_alike(m, t, f, l3, no);
            let (l4, r4) = tile_lower::pieces_lowered(t, f, l3, no, 0, Seq::empty(), Seq::empty());
            let last = r4->Ok_0;
            assert(op->Branch_1 == first && op->Branch_2 == last);
            assert forall|at: Seq<nat>, k: nat|
                #![trigger op_shown(m, op, at, k)]
                op_shown(m, op, at, k) == piece_shown(m, f.encoding, p, at, k, inside) by {
                assert(ops_shown(m, first, at, k + 1) == pieces_shown(
                    m,
                    f.encoding,
                    yes,
                    at,
                    k + 1,
                    inside,
                ));
                let j = k + 1 + ops_size(first);
                assert(ops_shown(m, last, at, j) == pieces_shown(m, f.encoding, no, at, j, inside));
            }
        },
        None => {
            assert(op->Branch_1 == first && op->Branch_2 == Seq::<OpV>::empty());
            assert forall|at: Seq<nat>, k: nat|
                #![trigger op_shown(m, op, at, k)]
                op_shown(m, op, at, k) == piece_shown(m, f.encoding, p, at, k, inside) by {
                assert(ops_shown(m, first, at, k + 1) == pieces_shown(
                    m,
                    f.encoding,
                    yes,
                    at,
                    k + 1,
                    inside,
                ));
            }
        },
    }
}

/// The steps of a run of pieces, from its start.
proof fn lemma_lowered_alike<T: TileTools>(
    m: MeaningV,
    t: T,
    f: FrameV,
    l: LowerV,
    ps: Seq<PieceV>,
)
    ensures
        ({
            let (l1, r) = tile_lower::pieces_lowered(t, f, l, ps, 0, Seq::empty(), Seq::empty());
            r matches Ok(ops) ==> {
                &&& l1.body is Some <==> l.body is Some
                &&& alike(m, f.encoding, ps, ops, l.body is Some)
            }
        }),
    decreases ps, ps.len() + 3,
{
    let none = Seq::<OpV>::empty();
    let inside = l.body is Some;
    assert(ps.take(0) =~= Seq::<PieceV>::empty());
    assert forall|at: Seq<nat>, k: nat|
        #![trigger ops_shown(m, none, at, k)]
        ops_shown(m, none, at, k) + Seq::<char>::empty() == pieces_shown(
            m,
            f.encoding,
            ps.take(0),
            at,
            k,
            inside,
        ) by {
        assert(ops_shown(m, none, at, k) + Seq::<char>::empty() =~= Seq::<char>::empty());
    }
    lemma_rest_alike(m, t, f, l, ps, 0, Seq::empty(), none);
}

/// The steps of a run of pieces, from a place on.
proof fn lemma_rest_alike<T: TileTools>(
    m: MeaningV,
    t: T,
    f: FrameV,
    l: LowerV,
    ps: Seq<PieceV>,
    i: int,
    buf: Seq<char>,
    ops: Seq<OpV>,
)
    requires
        0 <= i <= ps.len(),
        alike_with(m, f.encoding, ps.take(i), ops, buf, l.body is Some),
    ensures
        ({
            let (l1, r) = tile_lower::pieces_lowered(t, f, l, ps, i, buf, ops);
            r matches Ok(out) ==> {
                &&& l1.body is Some <==> l.body is Some
                &&& alike(m, f.encoding, ps, out, l.body is Some)
            }
        }),
    decreases
            ps,
            if 0 <= i < ps.len() {
                (ps.len() - i + 2) as nat
            } else {
                2nat
            },
{
    let inside = l.body is Some;
    let held = tile_lower::with_text(ops, buf);
    lemma_with_text(m, f.encoding, ps.take(i), ops, buf, inside);
    if i == ps.len() {
        assert(ps.take(i) =~= ps);
    } else {
        assert(decreases_to!(ps => ps[i]));
        let next = ps.take(i + 1);
        assert(next.drop_last() =~= ps.take(i));
        assert(next.last() == ps[i]);
        match ps[i] {
            PieceV::Static(s) => {
                let l1 = if f.encoding == "json"@ {
                    LowerV {
                        in_string: tile_lower::string_state(s, 0, l.in_string, false),
                        ..l
                    }
                } else {
                    l
                };
                assert(piece_size(PieceV::Static(s)) == 0);
                assert forall|at: Seq<nat>, k: nat|
                    #![trigger ops_shown(m, ops, at, k)]
                    ops_shown(m, ops, at, k) + (buf + s) == pieces_shown(
                        m,
                        f.encoding,
                        next,
                        at,
                        k,
                        inside,
                    ) by {
                    assert(ops_shown(m, ops, at, k) + buf == pieces_shown(
                        m,
                        f.encoding,
                        ps.take(i),
                        at,
                        k,
                        inside,
                    ));
                    assert(ops_shown(m, ops, at, k) + (buf + s) =~= (ops_shown(m, ops, at, k) + buf)
                        + s);
                    let j = k + pieces_size(ps.take(i));
                    assert(piece_shown(m, f.encoding, PieceV::Static(s), at, j, inside) == s);
                }
                lemma_rest_alike(m, t, f, l1, ps, i + 1, buf + s, ops);
            },
            PieceV::Hole(h) => {
                let enc = tile_lower::hole_encoding(f, l, h);
                lemma_hole_inside(t, f, l, h.text, h.expr, enc);
                let (l1, r) = tile_lower::hole_lowered(t, f, l, h.text, h.expr, enc);
                match r {
                    Ok(x) => {
                        assert(alike_one(m, f.encoding, ps[i], OpV::Hole(x), inside));
                        lemma_one_more(m, f.encoding, ps, i, held, OpV::Hole(x), inside);
                        lemma_rest_alike(
                            m,
                            t,
                            f,
                            l1,
                            ps,
                            i + 1,
                            Seq::empty(),
                            held.push(OpV::Hole(x)),
                        );
                    },
                    Err(_) => {},
                }
            },
            PieceV::Branch(cond, yes, otherwise, span) => {
                let (l1, r) = tile_lower::branch_lowered(t, f, l, cond, yes, otherwise, span);
                match r {
                    Ok(op) => {
                        lemma_branch_alike(m, t, f, l, cond, yes, otherwise, span);
                        lemma_one_more(m, f.encoding, ps, i, held, op, inside);
                        lemma_rest_alike(m, t, f, l1, ps, i + 1, Seq::empty(), held.push(op));
                    },
                    Err(_) => {},
                }
            },
            PieceV::Projection(source, sep, body, span) => {
                let (l1, r) = if l.body is Some {
                    tile_lower::nested_lowered(t, f, l, source, sep, body)
                } else {
                    tile_lower::projection_lowered(t, f, l, source, sep, body)
                };
                match r {
                    Ok(op) => {
                        if inside {
                            lemma_nested_alike(m, t, f, l, source, sep, body, span);
                        } else {
                            lemma_projection_alike(m, t, f, l, source, sep, body, span);
                        }
                        lemma_one_more(m, f.encoding, ps, i, held, op, inside);
                        lemma_rest_alike(m, t, f, l1, ps, i + 1, Seq::empty(), held.push(op));
                    },
                    Err(_) => {},
                }
            },
        }
    }
}

/// A template that is lowered comes to the same: whatever its holes come
/// to, whichever of its conditions hold and however many tuples its
/// projections have, its steps write what its pieces write. In particular a
/// branch writes its first run where its condition holds, and its second,
/// or nothing where it has none, where it does not.
pub proof fn law_lowering_keeps_the_text<T: TileTools>(
    m: MeaningV,
    t: T,
    f: FrameV,
    l: LowerV,
    ps: Seq<PieceV>,
)
    ensures
        tile_lower::pieces_lowered(t, f, l, ps, 0, Seq::empty(), Seq::empty()).1 matches Ok(ops)
            ==> ops_shown(m, ops, Seq::empty(), 0) == pieces_shown(
            m,
            f.encoding,
            ps,
            Seq::empty(),
            0,
            l.body is Some,
        ),
{
    lemma_lowered_alike(m, t, f, l, ps);
}

/// A branch over plain text takes its first text where its condition holds
/// and its second where it does not; without a second it takes none.
pub proof fn law_branch_of_texts<T: TileTools>(
    t: T,
    f: FrameV,
    l: LowerV,
    cond: ReadingV,
    a: Seq<char>,
    b: Option<Seq<char>>,
    span: Span,
)
    requires
        a.len() > 0,
        b matches Some(s) ==> s.len() > 0,
    ensures
        ({
            let yes = seq![PieceV::Static(a)];
            let otherwise = match b {
                Some(s) => Some(seq![PieceV::Static(s)]),
                None => None,
            };
            let (_, r) = tile_lower::branch_lowered(t, f, l, cond, yes, otherwise, span);
            r matches Ok(op) ==> {
                &&& op is Branch
                &&& op->Branch_1 == seq![OpV::Static(a)]
                &&& op->Branch_2 == match b {
                    Some(s) => seq![OpV::Static(s)],
                    None => Seq::empty(),
                }
            }
        }),
{
    let yes = seq![PieceV::Static(a)];
    let (l1, r) = tile_lower::hole_lowered(
        t,
        f,
        l,
        "if "@ + cond.shown,
        cond.expr,
        tile_lower::cond_encoding(f),
    );
    lemma_text_alone(t, f, l1, a);
    let (l2, r2) = tile_lower::pieces_lowered(t, f, l1, yes, 0, Seq::empty(), Seq::empty());
    let l3 = LowerV { in_string: l1.in_string, ..l2 };
    match b {
        Some(s) => {
            lemma_text_alone(t, f, l3, s);
        },
        None => {},
    }
}

proof fn lemma_text_alone<T: TileTools>(t: T, f: FrameV, l: LowerV, a: Seq<char>)
    requires
        a.len() > 0,
    ensures
        tile_lower::pieces_lowered(
            t,
            f,
            l,
            seq![PieceV::Static(a)],
            0,
            Seq::empty(),
            Seq::empty(),
        ).1 == Ok::<Seq<OpV>, Seq<char>>(seq![OpV::Static(a)]),
{
    let ps = seq![PieceV::Static(a)];
    let l1 = if f.encoding == "json"@ {
        LowerV { in_string: tile_lower::string_state(a, 0, l.in_string, false), ..l }
    } else {
        l
    };
    let none = Seq::<char>::empty();
    let empty = Seq::<OpV>::empty();
    assert(none + a =~= a);
    assert(tile_lower::pieces_lowered(t, f, l, ps, 0, none, empty)
        == tile_lower::pieces_lowered(t, f, l1, ps, 1, a, empty));
    assert(empty.push(OpV::Static(a)) =~= seq![OpV::Static(a)]);
}

} // verus!
