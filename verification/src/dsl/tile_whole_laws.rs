//! What the lowering of a template leaves behind.
use crate::dsl::ast::{ArgV, BindingModifier, ExprV, Span, WireModifier};
use crate::dsl::compiler::CompilerV;
use crate::dsl::events;
use crate::dsl::events::EventV;
use crate::dsl::pragmas;
use crate::dsl::pragmas::PragmaV;
use crate::dsl::template::{HoleV, TileDefV};
use crate::dsl::tile_lower;
use crate::dsl::tile_lower::{BookV, FrameV, LowerV, TileTools};
use crate::dsl::tile_ops::{HolePosition, OpV};
use crate::dsl::tile_typing_laws;
use crate::value::PortType;
use vstd::prelude::*;

verus! {

/// A projection that was lowered reads the program of its own body, which
/// the template now has; the bodies before stay. Its separator is the one
/// that is written; where none is, a comma in documents and tables and
/// nothing in plain text.
pub proof fn law_projection_has_its_body<T: TileTools>(
    t: T,
    f: FrameV,
    l: LowerV,
    sep: Option<Seq<char>>,
    stream: Seq<char>,
    generators: Seq<(Seq<char>, nat, Seq<char>)>,
    ops: Seq<OpV>,
)
    requires
        l.body is Some,
    ensures
        ({
            let (d, r) = tile_lower::projection_closed(t, f, l, sep, stream, generators, ops);
            r matches Ok(op) ==> {
                &&& op is Repeat
                &&& op->Repeat_1 == ops
                &&& op->Repeat_0.stream == stream
                &&& op->Repeat_0.generators == generators
                &&& op->Repeat_0.child < d.children.len()
                &&& d.children[op->Repeat_0.child as int].source == tile_lower::lines(
                    tile_typing_laws::body_lines(l.body->0),
                )
                &&& d.children[op->Repeat_0.child as int].cascade == l.body->0.cascade
                &&& d.children.drop_last() == l.children
                &&& d.body is None
                &&& sep matches Some(s) ==> op->Repeat_0.sep == s
                &&& sep is None && (f.encoding == "json"@ || f.encoding == "csv"@)
                    ==> op->Repeat_0.sep == seq![',']
                &&& sep is None && f.encoding == "text"@ ==> op->Repeat_0.sep.len() == 0
            }
        }),
{
    tile_typing_laws::law_program_of_a_body(l.body->0);
    let (d, r) = tile_lower::projection_closed(t, f, l, sep, stream, generators, ops);
    reveal_strlit(",");
    reveal_strlit("");
    reveal_strlit("text");
    reveal_strlit("json");
    reveal_strlit("csv");
    assert("text"@[0] == 't' && "json"@[0] == 'j' && "csv"@[0] == 'c');
    assert(","@ =~= seq![',']);
    if r is Ok {
        assert(d.children.drop_last() =~= l.children);
    }
}

/// The generators of a source become wires one by one: each is told with its
/// name, in their order, and with the place of its wire among the inputs.
pub proof fn law_generators_in_order<T: TileTools>(
    t: T,
    f: FrameV,
    l: LowerV,
    text: Seq<char>,
    elements: Seq<(Seq<char>, PortType)>,
    gens: Seq<(Seq<char>, Seq<char>)>,
    i: int,
    out: Seq<(Seq<char>, nat, Seq<char>)>,
)
    requires
        0 <= i <= gens.len(),
        out.len() == i,
        forall|k: int|
            0 <= k < i ==> (#[trigger] out[k]).0 == gens[k].0 && out[k].1 < l.inputs.len(),
    ensures
        ({
            let (d, r) = tile_lower::generators_lowered(t, f, l, text, elements, gens, i, out);
            r matches Ok(all) ==> {
                &&& all.len() == gens.len()
                &&& forall|k: int|
                    0 <= k < gens.len() ==> (#[trigger] all[k]).0 == gens[k].0 && all[k].1
                        < d.inputs.len()
                &&& l.inputs.len() <= d.inputs.len()
                &&& d.inputs.take(l.inputs.len() as int) == l.inputs
            }
        }),
    decreases gens.len() - i,
{
    let (d, r) = tile_lower::generators_lowered(t, f, l, text, elements, gens, i, out);
    if i == gens.len() {
        assert(d.inputs.take(l.inputs.len() as int) =~= l.inputs);
    } else if r is Ok {
        let (name, expr) = gens[i];
        let x = t.expression(expr)->Ok_0;
        let wire = tile_lower::next_name(f, l, "g"@);
        let l1 = tile_lower::took(f, l, "g"@);
        let c = crate::dsl::binding::bound(t, l1.c, seq![wire], x.expr).0;
        let l2 = LowerV { c, inputs: tile_lower::with_input(l1.inputs, wire), ..l1 };
        tile_typing_laws::law_input_stands_at_its_place(l1.inputs, wire);
        let more = out.push(
            (
                name,
                tile_lower::place_in(l1.inputs, wire, 0) as nat,
                match tile_lower::element_type(elements, name) {
                    Some(ty) => crate::value::port_keyword(ty),
                    None => "str"@,
                },
            ),
        );
        assert forall|k: int| 0 <= k < i + 1 implies (#[trigger] more[k]).0 == gens[k].0
            && more[k].1 < l2.inputs.len() by {
            if k < i {
                assert(more[k] == out[k]);
            }
        }
        law_generators_in_order(t, f, l2, text, elements, gens, i + 1, more);
        assert(d.inputs.take(l.inputs.len() as int) =~= l2.inputs.take(l.inputs.len() as int)) by {
            assert(d.inputs.take(l2.inputs.len() as int) == l2.inputs);
            assert(d.inputs.take(l2.inputs.len() as int).take(l.inputs.len() as int)
                =~= d.inputs.take(l.inputs.len() as int));
        }
    }
}

/// A hole is encoded as it is written: with its type, its format, and raw
/// where it says so. In a document it stands inside a string or as a value;
/// nowhere else is there a difference. A condition is encoded as such.
pub proof fn law_hole_is_encoded_as_written(f: FrameV, l: LowerV, h: HoleV)
    ensures
        ({
            let enc = tile_lower::hole_encoding(f, l, h);
            &&& enc.encoding == f.encoding
            &&& enc.ty == h.decl_type
            &&& enc.format == h.format
            &&& enc.raw == h.raw
            &&& !enc.cond
            &&& f.encoding == "json"@ ==> (enc.position == HolePosition::InString <==> l.in_string)
                && (enc.position == HolePosition::Value <==> !l.in_string)
            &&& f.encoding != "json"@ ==> enc.position == HolePosition::Text
        }),
        tile_lower::cond_encoding(f).cond,
{
}

/// A template is strict where it or the program is, and is plain text where
/// it does not say what it is.
pub proof fn law_frame_of_a_template(c: CompilerV, book: BookV, d: TileDefV)
    ensures
        tile_lower::frame_of(c, book, d).strict <==> c.strict || d.options.strict,
        tile_lower::frame_of(c, book, d).tile == d.name,
        d.encoding is None ==> tile_lower::frame_of(c, book, d).encoding == "text"@,
        d.encoding matches Some(e) ==> tile_lower::frame_of(c, book, d).encoding == e,
{
}

/// A template that was lowered is there for the templates after it. One that
/// reads no wire is a constant; the one that does is not made one.
pub proof fn law_template_without_wires_is_constant<T: TileTools>(
    t: T,
    c: CompilerV,
    book: BookV,
    d: TileDefV,
)
    requires
        tile_lower::tile_lowered(t, c, book, d).2 is Ok,
    ensures
        ({
            let (c1, b1, _) = tile_lower::tile_lowered(t, c, book, d);
            let f = tile_lower::frame_of(c, book, d);
            let pieces = tile_lower::spliced(book.tiles, d.pieces, d.name, f.encoding, 0)->Ok_0;
            let l = tile_lower::pieces_lowered(
                t,
                f,
                tile_lower::begun(c, book),
                pieces,
                0,
                Seq::empty(),
                Seq::empty(),
            ).0;
            &&& b1.tiles == book.tiles.push(d)
            &&& b1.producers == book.producers
            &&& b1.events.last() is TileCompiled
            &&& l.inputs.len() == 0 ==> c1.graph.const_outputs.len() > 0
                && c1.graph.const_outputs.last() == d.name && c1.graph.modifiers.last().0 == d.name
                && c1.graph.modifiers.last().1.constant
        }),
{
}

/// The call that a template becomes has the written template first and then
/// the names of its inputs, in their order.
pub proof fn law_arguments_of_a_template(
    text: Seq<char>,
    inputs: Seq<Seq<char>>,
    span: Span,
    i: int,
)
    requires
        0 <= i < inputs.len(),
    ensures
        ({
            let args = tile_lower::render_args(text, inputs, span);
            &&& args.len() == inputs.len() + 1
            &&& args[0].value == ExprV::StringLit(text, span)
            &&& args[i + 1] == (ArgV { name: None, value: ExprV::Ident(inputs[i], span) })
        }),
{
}

/// A modifier that is added is there, and the others stay as they were.
pub proof fn law_modifier_added(b: BindingModifier, m: WireModifier)
    ensures
        b.with(m).constant <==> b.constant || m is Const,
        b.with(m).shared <==> b.shared || m is Shared,
        b.with(m).volatile <==> b.volatile || m is Volatile,
        b.with(m).with(m) == b.with(m),
        b.with(m) != BindingModifier::plain(),
{
}

/// A pragma is acknowledged exactly where it makes types or values strict,
/// and told with its name and its line in any case.
pub proof fn law_pragma_is_told(p: PragmaV)
    ensures
        events::pragma_event(p) == if pragmas::types_strict(seq![seq![p]])
            || pragmas::values_strict(seq![seq![p]]) {
            EventV::PragmaAcknowledged(p.name, p.line)
        } else {
            EventV::UnknownPragma(p.name, p.line)
        },
{
    crate::dsl::name_laws::law_known_pragmas_ask(p);
}

} // verus!
