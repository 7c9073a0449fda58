//! How the holes of a template are typed, what a body sees of the program
//! around it, and which sources a projection may run over.
use crate::comprehension::ast::CompV;
use crate::dsl::ast::{ExprV, Span};
use crate::dsl::element_laws;
use crate::dsl::message_laws;
use crate::dsl::tile_kit::TileKit;
use crate::dsl::tile_lower;
use crate::dsl::tile_lower::{BodyV, FrameV, LowerV, ProducerV, TileTools};
use crate::dsl::tile_ops::{EncodingV, HolePosition, HoleSourceV};
use crate::dsl::tile_source;
use crate::value;
use crate::value::PortType;
use vstd::prelude::*;

verus! {

// ---------------------------------------------------------------------
// Inputs
// ---------------------------------------------------------------------

proof fn lemma_place_in(s: Seq<Seq<char>>, name: Seq<char>, i: int)
    requires
        0 <= i <= s.len(),
    ensures
        i <= tile_lower::place_in(s, name, i) <= s.len(),
        tile_lower::place_in(s, name, i) < s.len() ==> s[tile_lower::place_in(s, name, i)] == name,
        forall|j: int| i <= j < tile_lower::place_in(s, name, i) ==> #[trigger] s[j] != name,
    decreases s.len() - i,
{
    if i < s.len() && s[i] != name {
        lemma_place_in(s, name, i + 1);
    }
}

/// A name that is handed to a template stands among its inputs at the place
/// that is told for it. Those before keep their places, and no name stands
/// there twice if none did.
pub proof fn law_input_stands_at_its_place(s: Seq<Seq<char>>, name: Seq<char>)
    ensures
        ({
            let r = tile_lower::with_input(s, name);
            let k = tile_lower::place_in(s, name, 0);
            &&& 0 <= k < r.len()
            &&& r[k] == name
            &&& s.len() <= r.len()
            &&& r.take(s.len() as int) == s
            &&& s.no_duplicates() ==> r.no_duplicates()
        }),
{
    lemma_place_in(s, name, 0);
    let r = tile_lower::with_input(s, name);
    assert(r.take(s.len() as int) =~= s);
}

/// A hole outside any body reads the wire that was bound for it.
pub proof fn law_hole_reads_its_wire<T: TileTools>(
    t: T,
    f: FrameV,
    l: LowerV,
    name: Seq<char>,
    text: Seq<char>,
    e: ExprV,
    ty: tile_lower::TypingV,
    enc: EncodingV,
)
    ensures
        ({
            let (after, r) = tile_lower::encoded_hole(t, f, l, name, text, e, ty, enc);
            r matches Ok(h) ==> h matches HoleSourceV::Wire(k) && k < after.inputs.len()
                && after.inputs[k as int] == name
        }),
{
    law_input_stands_at_its_place(l.inputs, name);
}

// ---------------------------------------------------------------------
// Types
// ---------------------------------------------------------------------

/// A type is one of whole numbers or of doubles, or a truth value, a text,
/// bytes or a document; what is none of these has no text.
pub proof fn law_types_with_a_text(t: PortType)
    ensures
        tile_lower::numeric(t) <==> (message_laws::numbers(t) is Some && !(t is Bool)) || t is F64
            || t is F32 || t is F16,
        tile_lower::textless(t) <==> !tile_lower::numeric(t) && !(t is Bool) && !(t is Str)
            && !(t is Bytes) && !(t is Json),
{
}

/// A hole has its declared type, where one is declared, else that of its
/// wire. A conversion is made exactly where the two differ: from the wire's
/// to the declared one, by what the tools have for it, and never in strict
/// mode. A wire without a text fills no hole.
pub proof fn law_hole_is_typed<T: TileTools>(
    t: T,
    f: FrameV,
    text: Seq<char>,
    wire: PortType,
    declared: Option<PortType>,
    position: HolePosition,
    cond: bool,
)
    ensures
        ({
            let kw = match declared {
                Some(d) => Some(value::port_keyword(d)),
                None => None,
            };
            let want = match declared {
                Some(d) => d,
                None => wire,
            };
            let r = tile_lower::typing(t, f, text, wire, kw, position, cond);
            &&& r is Ok <==> !tile_lower::textless(wire) && (want == wire || (!f.strict
                && t.adapter(wire, want) is Some))
            &&& r matches Ok(ty) ==> {
                &&& ty.wire == wire
                &&& ty.declared == declared
                &&& ty.effective == want
                &&& ty.adapter == if want == wire {
                    None
                } else {
                    Some((wire, want))
                }
            }
        }),
{
    match declared {
        Some(d) => value::law_keyword_round_trip(d),
        None => {},
    }
}

/// A word that is the name of no type is refused as a declared type.
pub proof fn law_unknown_type_is_refused<T: TileTools>(
    t: T,
    f: FrameV,
    text: Seq<char>,
    wire: PortType,
    kw: Seq<char>,
    position: HolePosition,
    cond: bool,
)
    requires
        kw != "String"@,
        forall|p: PortType| #[trigger] value::port_keyword(p) != kw,
    ensures
        tile_lower::typing(t, f, text, wire, Some(kw), position, cond) is Err,
{
    assert(value::port_of_keyword(kw) is None);
}

/// The encoding of a hole carries the type that the hole was given.
pub proof fn law_encoding_carries_the_type(enc: EncodingV, ty: tile_lower::TypingV)
    ensures
        tile_lower::settled(enc, ty).ty matches Some(kw) && value::port_of_keyword(kw) == Some(
            ty.effective,
        ),
        tile_lower::settled(enc, ty).encoding == enc.encoding,
        tile_lower::settled(enc, ty).position == enc.position,
        tile_lower::settled(enc, ty).format == enc.format,
        tile_lower::settled(enc, ty).raw == enc.raw,
        tile_lower::settled(enc, ty).cond == enc.cond,
{
    value::law_keyword_round_trip(ty.effective);
}

/// In a body a hole holds its expression, or that expression cast to the
/// type that was asked for.
pub proof fn law_value_in_a_body(
    f: FrameV,
    text: Seq<char>,
    e: ExprV,
    from: PortType,
    to: PortType,
)
    ensures
        tile_lower::body_value(f, text, e, None) == Ok::<ExprV, Seq<char>>(e),
        tile_lower::body_value(f, text, e, Some((from, to))) matches Ok(v) ==> v == e
            || (v matches ExprV::Cast(x, p, _) && *x == e && p == to),
        to is F64 && from is U64 ==> (tile_lower::body_value(
            f,
            text,
            e,
            Some((from, to)),
        ) matches Ok(v) && v is Cast),
        to is Str || to is Bool ==> tile_lower::body_value(f, text, e, Some((from, to))) == Ok::<
            ExprV,
            Seq<char>,
        >(e),
{
}

// ---------------------------------------------------------------------
// What a body sees
// ---------------------------------------------------------------------

/// An element has the type that is first given for its name.
pub proof fn law_element_type(s: Seq<(Seq<char>, PortType)>, name: Seq<char>)
    ensures
        match tile_lower::element_type(s, name) {
            Some(p) => exists|i: int|
                0 <= i < s.len() && #[trigger] s[i] == (name, p) && forall|j: int|
                    0 <= j < i ==> (#[trigger] s[j]).0 != name,
            None => forall|j: int| 0 <= j < s.len() ==> (#[trigger] s[j]).0 != name,
        },
    decreases s.len(),
{
    if s.len() > 0 {
        let front = s.drop_last();
        law_element_type(front, name);
        match tile_lower::element_type(front, name) {
            Some(p) => {
                let i = choose|i: int|
                    0 <= i < front.len() && #[trigger] front[i] == (name, p) && forall|j: int|
                        0 <= j < i ==> (#[trigger] front[j]).0 != name;
                assert(s[i] == (name, p));
                assert forall|j: int| 0 <= j < i implies (#[trigger] s[j]).0 != name by {
                    assert(front[j] == s[j]);
                }
            },
            None => {
                assert forall|j: int| 0 <= j < front.len() implies (#[trigger] s[j]).0 != name by {
                    assert(front[j] == s[j]);
                }
                if s.last().0 == name {
                    assert(s[s.len() - 1] == (name, s.last().1));
                }
            },
        }
    }
}

/// Whether a body defines a name by itself.
pub open spec fn defines(b: BodyV, name: Seq<char>) -> bool {
    ||| tile_lower::element_type(b.elements, name) is Some
    ||| tile_lower::cascade_type(b.cascade, name) is Some
    ||| b.producers.contains(name)
}

/// An outer name that a body refers to is handed to the template, and in
/// the body it has the type that it has outside. What the body defines stays
/// as it is, and so does a name that nothing outside has.
pub proof fn law_outer_name_in_a_body<T: TileTools>(t: T, l: LowerV, name: Seq<char>, span: Span)
    requires
        l.body is Some,
    ensures
        ({
            let after = tile_lower::cascaded_ref(l, name);
            let outer = match l.c.graph.output_type(name) {
                Some(p) => Some(p),
                None => l.c.graph.input_type(name),
            };
            &&& defines(l.body->0, name) || outer is None ==> after == l
            &&& !defines(l.body->0, name) && outer is Some ==> {
                let b = after.body->0;
                &&& after.body is Some
                &&& b.cascade.len() == l.body->0.cascade.len() + 1
                &&& b.cascade.last().0 == name
                &&& b.cascade.last().1 < after.inputs.len()
                &&& after.inputs[b.cascade.last().1 as int] == name
                &&& tile_lower::hole_type(t, after, ExprV::Ident(name, span)) == outer->Some_0
            }
        }),
{
    let b = l.body->0;
    let outer = match l.c.graph.output_type(name) {
        Some(p) => Some(p),
        None => l.c.graph.input_type(name),
    };
    if !defines(b, name) && outer is Some {
        law_input_stands_at_its_place(l.inputs, name);
        value::law_keyword_round_trip(outer->Some_0);
        let after = tile_lower::cascaded_ref(l, name).body->0;
        assert(after.cascade.drop_last() =~= b.cascade);
        assert(tile_lower::cascade_type(after.cascade, name) == Some(
            value::port_keyword(outer->Some_0),
        ));
    }
}

/// A producer is the latest of its name.
pub proof fn law_latest_producer_counts(s: Seq<ProducerV>, p: ProducerV, other: Seq<char>)
    ensures
        tile_lower::producer_named(s.push(p), p.name) == Some(p),
        other != p.name ==> tile_lower::producer_named(s.push(p), other)
            == tile_lower::producer_named(s, other),
        tile_lower::producer_named(Seq::empty(), other) is None,
{
    assert(s.push(p).drop_last() =~= s);
}

/// The line that declares a name with a type.
pub open spec fn declaration(name: Seq<char>, kw: Seq<char>) -> Seq<char> {
    "extern "@ + name + ": "@ + kw
}

/// The lines of the program of a body: its own input, its elements, the
/// outer names that it reads, and its bindings.
pub open spec fn body_lines(b: BodyV) -> Seq<Seq<char>> {
    seq!["input __tuple: u64"@] + Seq::new(
        b.elements.len(),
        |i: int| declaration(b.elements[i].0, value::port_keyword(b.elements[i].1)),
    ) + Seq::new(b.cascade.len(), |i: int| declaration(b.cascade[i].0, b.cascade[i].2))
        + b.bindings
}

proof fn lemma_lines_joined(a: Seq<Seq<char>>, b: Seq<Seq<char>>)
    ensures
        tile_lower::lines(a + b) == tile_lower::lines(a) + tile_lower::lines(b),
    decreases b.len(),
{
    if b.len() == 0 {
        assert(a + b =~= a);
        assert(tile_lower::lines(a) + tile_lower::lines(b) =~= tile_lower::lines(a));
    } else {
        assert((a + b).drop_last() =~= a + b.drop_last());
        assert((a + b).last() == b.last());
        lemma_lines_joined(a, b.drop_last());
        assert(tile_lower::lines(a + b) =~= tile_lower::lines(a) + tile_lower::lines(b));
    }
}

proof fn lemma_element_lines(s: Seq<(Seq<char>, PortType)>)
    ensures
        tile_lower::element_lines(s) == tile_lower::lines(
            Seq::new(s.len(), |i: int| declaration(s[i].0, value::port_keyword(s[i].1))),
        ),
    decreases s.len(),
{
    let all = Seq::new(s.len(), |i: int| declaration(s[i].0, value::port_keyword(s[i].1)));
    if s.len() > 0 {
        let front = s.drop_last();
        lemma_element_lines(front);
        assert(all.drop_last() =~= Seq::new(
            front.len(),
            |i: int| declaration(front[i].0, value::port_keyword(front[i].1)),
        ));
        assert(tile_lower::element_lines(s) =~= tile_lower::lines(all));
    }
}

proof fn lemma_cascade_lines(s: Seq<(Seq<char>, nat, Seq<char>)>)
    ensures
        tile_lower::cascade_lines(s) == tile_lower::lines(
            Seq::new(s.len(), |i: int| declaration(s[i].0, s[i].2)),
        ),
    decreases s.len(),
{
    let all = Seq::new(s.len(), |i: int| declaration(s[i].0, s[i].2));
    if s.len() > 0 {
        let front = s.drop_last();
        lemma_cascade_lines(front);
        assert(all.drop_last() =~= Seq::new(
            front.len(),
            |i: int| declaration(front[i].0, front[i].2),
        ));
        assert(tile_lower::cascade_lines(s) =~= tile_lower::lines(all));
    }
}

/// The program of a body declares every name that it has from outside,
/// before the lines that were bound in it; each line ends.
pub proof fn law_program_of_a_body(b: BodyV)
    ensures
        tile_lower::program(b) == tile_lower::lines(body_lines(b)),
{
    let own = seq!["input __tuple: u64"@];
    let elements = Seq::new(
        b.elements.len(),
        |i: int| declaration(b.elements[i].0, value::port_keyword(b.elements[i].1)),
    );
    let cascade = Seq::new(b.cascade.len(), |i: int| declaration(b.cascade[i].0, b.cascade[i].2));
    lemma_element_lines(b.elements);
    lemma_cascade_lines(b.cascade);
    lemma_lines_joined(own + elements + cascade, b.bindings);
    lemma_lines_joined(own + elements, cascade);
    lemma_lines_joined(own, elements);
    assert(own.drop_last() =~= Seq::<Seq<char>>::empty());
    assert(tile_lower::lines(own.drop_last()) =~= Seq::<char>::empty());
    reveal_strlit("input __tuple: u64\n");
    reveal_strlit("input __tuple: u64");
    reveal_strlit("\n");
    assert(tile_lower::lines(own) =~= "input __tuple: u64"@ + "\n"@);
    assert("input __tuple: u64"@ + "\n"@ =~= "input __tuple: u64\n"@);
}

// ---------------------------------------------------------------------
// Sources
// ---------------------------------------------------------------------

proof fn lemma_first_outside(s: Seq<Seq<char>>, known: Seq<Seq<char>>, i: int)
    requires
        0 <= i <= s.len(),
    ensures
        tile_lower::first_outside(s, known, i) is None <==> forall|j: int|
            i <= j < s.len() ==> known.contains(#[trigger] s[j]),
        tile_lower::first_outside(s, known, i) matches Some(n) ==> s.contains(n)
            && !known.contains(n),
    decreases s.len() - i,
{
    if i < s.len() {
        if known.contains(s[i]) {
            lemma_first_outside(s, known, i + 1);
        }
    }
}

proof fn lemma_all_placeholders(texts: Seq<Seq<char>>, n: Seq<char>)
    ensures
        tile_lower::all_placeholders(texts).contains(n) <==> exists|i: int|
            0 <= i < texts.len() && tile_source::placeholders(#[trigger] texts[i], 0).contains(n),
    decreases texts.len(),
{
    if texts.len() > 0 {
        let front = texts.drop_last();
        lemma_all_placeholders(front, n);
        let a = tile_lower::all_placeholders(front);
        let b = tile_source::placeholders(texts.last(), 0);
        let all = tile_lower::all_placeholders(texts);
        assert(all == a + b);
        if a.contains(n) {
            let k = choose|k: int| 0 <= k < a.len() && a[k] == n;
            assert(all[k] == n);
            let i = choose|i: int|
                0 <= i < front.len() && tile_source::placeholders(
                    #[trigger] front[i],
                    0,
                ).contains(n);
            assert(texts[i] == front[i]);
        }
        if b.contains(n) {
            let k = choose|k: int| 0 <= k < b.len() && b[k] == n;
            assert(all[a.len() + k] == n);
            assert(texts[texts.len() - 1] == texts.last());
        }
        if all.contains(n) {
            let k = choose|k: int| 0 <= k < all.len() && all[k] == n;
            if k < a.len() {
                assert(a[k] == n);
            } else {
                assert(b[k - a.len()] == n);
            }
        }
        if exists|i: int|
            0 <= i < texts.len() && tile_source::placeholders(#[trigger] texts[i], 0).contains(
                n,
            ) {
            let i = choose|i: int|
                0 <= i < texts.len() && tile_source::placeholders(
                    #[trigger] texts[i],
                    0,
                ).contains(n);
            if i < front.len() {
                assert(front[i] == texts[i]);
            }
        }
    }
}

/// The conditions of a projection are accepted exactly where every name in
/// braces in one of them is that of an element.
pub proof fn law_conditions_name_elements(f: FrameV, c: CompV, text: Seq<char>)
    ensures
        tile_lower::predicates_ok(f, c, text) is Ok <==> forall|i: int, n: Seq<char>|
            0 <= i < tile_source::predicates(c).len() && #[trigger] tile_source::placeholders(
                tile_source::predicates(c)[i],
                0,
            ).contains(n) ==> element_laws::names_of(element_laws::clauses(c)).contains(n),
{
    let ps = tile_source::predicates(c);
    let all = tile_lower::all_placeholders(ps);
    let known = tile_source::element_names(c);
    element_laws::law_elements(c);
    lemma_first_outside(all, known, 0);
    if tile_lower::predicates_ok(f, c, text) is Ok {
        assert forall|i: int, n: Seq<char>|
            0 <= i < ps.len() && #[trigger] tile_source::placeholders(ps[i], 0).contains(
                n,
            ) implies known.contains(n) by {
            lemma_all_placeholders(ps, n);
            let k = choose|k: int| 0 <= k < all.len() && all[k] == n;
            assert(known.contains(all[k]));
        }
    } else {
        let n = tile_lower::first_outside(all, known, 0)->Some_0;
        lemma_all_placeholders(ps, n);
        let i = choose|i: int|
            0 <= i < ps.len() && tile_source::placeholders(#[trigger] ps[i], 0).contains(n);
        assert(tile_source::placeholders(ps[i], 0).contains(n));
        assert(!known.contains(n));
    }
}

/// A projection runs over every source but a continuum.
pub proof fn law_projection_needs_no_continuum(
    kit: TileKit,
    f: FrameV,
    c: CompV,
    text: Seq<char>,
)
    ensures
        tile_lower::bounded(kit, f, c, text) is Ok <==> !element_laws::some_sampled(
            element_laws::clauses(c),
        ),
{
    element_laws::law_elements(c);
}

} // verus!
