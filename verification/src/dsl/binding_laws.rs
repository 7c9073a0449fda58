//! What calls, selections, texts and declarations are lowered to.
use crate::chars;
use crate::dsl::assembly;
use crate::dsl::assembly::{InputKind, KindV, NodeV, SlotV, WireV};
use crate::dsl::ast::{ArgV, BindingV, ExprV, Span, StatementV};
use crate::dsl::binding;
use crate::dsl::compile;
use crate::dsl::compiler::{CompilerV, Toolbox};
use crate::dsl::factory::ConstV;
use crate::dsl::registry::SlotType;
use crate::value;
use crate::value::{DatumV, PortType};
use vstd::prelude::*;

verus! {

// ---------------------------------------------------------------------
// Calls
// ---------------------------------------------------------------------

/// Whether every argument is a name.
pub open spec fn all_names(args: Seq<ArgV>) -> bool {
    forall|i: int| 0 <= i < args.len() ==> (#[trigger] args[i]).value is Ident
}

/// The names that are handed to a call reach it in their order, each as the
/// input or the node that it stands for.
pub proof fn law_arguments_in_order<T: Toolbox>(
    t: T,
    c: CompilerV,
    slots: Seq<SlotType>,
    variadic: bool,
    args: Seq<ArgV>,
)
    requires
        all_names(args),
    ensures
        ({
            let (d, r) = binding::arguments(t, c, slots, variadic, args);
            &&& d == c
            &&& r matches Ok((wires, consts)) && wires.len() == args.len() && consts.len() == 0
                && forall|i: int|
                0 <= i < args.len() ==> #[trigger] wires[i] == if c.input_names.contains(
                    args[i].value->Ident_0,
                ) {
                    WireV::Input(args[i].value->Ident_0)
                } else {
                    WireV::Node(args[i].value->Ident_0, 0)
                }
        }),
    decreases args.len(),
{
    if args.len() > 0 {
        let front = args.drop_last();
        assert forall|i: int| 0 <= i < front.len() implies (#[trigger] front[i]).value is Ident by {
            assert(front[i] == args[i]);
        }
        law_arguments_in_order(t, c, slots, variadic, front);
        assert(args[args.len() - 1].value is Ident);
        let wanted = binding::wants_wire(slots, variadic, args.len() - 1);
        assert(binding::argument(t, c, wanted, args.last().value) == (
            c,
            Ok::<binding::ItemV, Seq<char>>(
                binding::ItemV::Wire(c.wire_of(args.last().value->Ident_0)),
            ),
        ));
        let (wires, consts) = binding::arguments(t, c, slots, variadic, args).1->Ok_0;
        let had = binding::arguments(t, c, slots, variadic, front).1->Ok_0.0;
        assert forall|i: int| 0 <= i < args.len() implies #[trigger] wires[i]
            == if c.input_names.contains(args[i].value->Ident_0) {
            WireV::Input(args[i].value->Ident_0)
        } else {
            WireV::Node(args[i].value->Ident_0, 0)
        } by {
            if i < front.len() {
                assert(had[i] == wires[i]);
                assert(front[i] == args[i]);
            }
        }
    }
}

/// Where no resolver is known, wires are fed as they are.
proof fn lemma_fed_as_they_are<T: Toolbox>(
    t: T,
    c: CompilerV,
    ins: Seq<PortType>,
    wires: Seq<WireV>,
)
    ensures
        binding::promoted(t, c, None, ins, wires) == (c, Ok::<Seq<WireV>, Seq<char>>(wires)),
    decreases wires.len(),
{
    if wires.len() > 0 {
        lemma_fed_as_they_are(t, c, ins, wires.drop_last());
        assert(wires.drop_last().push(wires.last()) =~= wires);
    } else {
        assert(Seq::<WireV>::empty() =~= wires);
    }
}

/// A call over names adds one node, of the function that is called and over
/// the wires of the names, under the name that is bound; where the toolbox
/// makes none, the call fails as it says.
pub proof fn law_call_of_names<T: Toolbox>(
    t: T,
    c: CompilerV,
    name: Seq<char>,
    func: Seq<char>,
    args: Seq<ArgV>,
    span: Span,
)
    requires
        func != "if"@,
        all_names(args),
        binding::resolver_of(t.signature(func)) is None,
    ensures
        ({
            let (d, r) = binding::lowered_call(t, c, seq![name], func, args, span);
            let wires = Seq::new(
                args.len(),
                |i: int|
                    if c.input_names.contains(args[i].value->Ident_0) {
                        WireV::Input(args[i].value->Ident_0)
                    } else {
                        WireV::Node(args[i].value->Ident_0, 0)
                    },
            );
            let made = t.built(
                Some(name),
                func,
                wires,
                assembly::wire_types(c.graph, wires),
                Seq::empty(),
            );
            &&& made matches Ok(b) ==> {
                &&& r is Ok
                &&& d.graph.nodes == c.graph.nodes.push(
                    NodeV { name, kind: KindV::Built(b), wires },
                )
                &&& d.all_names == c.all_names.push(name)
            }
            &&& made matches Err(e) ==> !chars::occurs(e, "unknown function"@) ==> r == Err::<
                (),
                Seq<char>,
            >(e)
        }),
{
    let sig = t.signature(func);
    let slots = binding::slots_of(sig);
    let variadic = binding::takes_wires(sig);
    law_arguments_in_order(t, c, slots, variadic, args);
    let (got, consts) = binding::arguments(t, c, slots, variadic, args).1->Ok_0;
    let wires = Seq::new(
        args.len(),
        |i: int|
            if c.input_names.contains(args[i].value->Ident_0) {
                WireV::Input(args[i].value->Ident_0)
            } else {
                WireV::Node(args[i].value->Ident_0, 0)
            },
    );
    assert(got =~= wires);
    assert(consts =~= Seq::<ConstV>::empty());
    let made = t.built(
        Some(name),
        func,
        wires,
        assembly::wire_types(c.graph, wires),
        Seq::empty(),
    );
    match made {
        Ok(b) => lemma_fed_as_they_are(t, c, b.ins, wires),
        Err(_) => {},
    }
}

/// Whether an expression is another, or the double of it.
pub open spec fn perhaps_widened(e: ExprV, of: ExprV) -> bool {
    e == of || (e matches ExprV::Call(f, args, _) && f == "to_f64"@ && args.len() == 1
        && args[0].value == of)
}

/// A selection asks its condition first, then takes what it is to be where
/// the condition holds, then what it is to be where it does not. It is a
/// selection of texts where one of them is a text, else of doubles where
/// one of them is a double, a whole number beside a double being widened.
pub proof fn law_selection<T: Toolbox>(t: T, c: CompilerV, args: Seq<ArgV>, span: Span)
    requires
        args.len() == 3,
    ensures
        ({
            let r = binding::selection(t, c, args, span);
            let at = binding::inferred(t, c, args[1].value);
            let bt = binding::inferred(t, c, args[2].value);
            let text = at == PortType::Str || bt == PortType::Str;
            let double = at == PortType::F64 || bt == PortType::F64;
            &&& r matches ExprV::Call(f, list, _) && {
                &&& list.len() == 3
                &&& list[0] == args[0]
                &&& perhaps_widened(list[1].value, args[1].value)
                &&& perhaps_widened(list[2].value, args[2].value)
                &&& text ==> f == "select_str"@ && list[1].value == args[1].value && list[2].value
                    == args[2].value
                &&& !text && double ==> {
                    &&& f == "select_f64"@
                    &&& list[1].value == args[1].value <==> !(at == PortType::U64)
                    &&& list[2].value == args[2].value <==> !(bt == PortType::U64)
                }
                &&& !text && !double ==> f == "select_u64"@ && list[1].value == args[1].value
                    && list[2].value == args[2].value
            }
        }),
{
    binding::lemma_weight_positive(args[1].value);
    binding::lemma_weight_positive(args[2].value);
    lemma_widening_differs(args[1].value);
    lemma_widening_differs(args[2].value);
}

proof fn lemma_widening_differs(e: ExprV)
    ensures
        binding::widening(e) != e,
        perhaps_widened(binding::widening(e), e),
{
    let w = binding::widening(e);
    assert(w->Call_1 == seq![ArgV { name: None, value: e }]);
    assert(decreases_to!(w => w->Call_1));
    assert(decreases_to!(w->Call_1 => w->Call_1[0]));
    assert(decreases_to!(w->Call_1[0] => w->Call_1[0].value));
}

/// Several names that are bound to one call take its outputs in their
/// order.
pub proof fn law_outputs_spread(
    c: CompilerV,
    internal: Seq<char>,
    outs: Seq<PortType>,
    targets: Seq<Seq<char>>,
)
    ensures
        ({
            let d = binding::spread(c, internal, outs, targets);
            &&& d.graph.nodes.len() == c.graph.nodes.len() + targets.len()
            &&& d.graph.nodes.take(c.graph.nodes.len() as int) == c.graph.nodes
            &&& forall|i: int|
                0 <= i < targets.len() ==> {
                    let n = #[trigger] d.graph.nodes[c.graph.nodes.len() + i];
                    n.name == targets[i] && n.kind is Identity && n.wires == seq![
                        WireV::Node(internal, i as nat),
                    ]
                }
            &&& d.all_names == c.all_names + targets
        }),
    decreases targets.len(),
{
    let d = binding::spread(c, internal, outs, targets);
    let k = c.graph.nodes.len();
    if targets.len() == 0 {
        assert(d.graph.nodes.take(k as int) =~= c.graph.nodes);
        assert(d.all_names =~= c.all_names + targets);
    } else {
        let front = targets.drop_last();
        law_outputs_spread(c, internal, outs, front);
        let e = binding::spread(c, internal, outs, front);
        assert(d.graph.nodes.take(k as int) =~= e.graph.nodes.take(k as int));
        assert(d.all_names =~= c.all_names + targets);
        assert forall|i: int| 0 <= i < targets.len() implies {
            let n = #[trigger] d.graph.nodes[k + i];
            n.name == targets[i] && n.kind is Identity && n.wires == seq![
                WireV::Node(internal, i as nat),
            ]
        } by {
            if i < front.len() {
                assert(d.graph.nodes[k + i] == e.graph.nodes[k + i]);
                assert(front[i] == targets[i]);
            }
        }
    }
}

// ---------------------------------------------------------------------
// Texts
// ---------------------------------------------------------------------

/// A part of a text: plain, or a name to be put in.
pub enum PartV {
    Plain(Seq<char>),
    Name(Seq<char>),
}

/// Whether a part is what it says: a plain one opens no brace, a name is
/// none that is quoted and closes no brace.
pub open spec fn proper(p: PartV) -> bool {
    match p {
        PartV::Plain(s) => forall|i: int| 0 <= i < s.len() ==> #[trigger] s[i] != '{',
        PartV::Name(n) => binding::placeholder(n) && forall|i: int|
            0 <= i < n.len() ==> #[trigger] n[i] != '}',
    }
}

/// Whether every part of a run is.
pub open spec fn all_proper(s: Seq<PartV>) -> bool {
    forall|i: int| 0 <= i < s.len() ==> proper(#[trigger] s[i])
}

/// The text of a run of parts, with names in braces.
pub open spec fn parts_text(s: Seq<PartV>) -> Seq<char>
    decreases s.len(),
{
    if s.len() == 0 {
        Seq::empty()
    } else {
        (match s[0] {
            PartV::Plain(t) => t,
            PartV::Name(n) => seq!['{'] + n + seq!['}'],
        }) + parts_text(s.drop_first())
    }
}

/// The format of a run of parts, with nothing in the braces.
pub open spec fn parts_format(s: Seq<PartV>) -> Seq<char>
    decreases s.len(),
{
    if s.len() == 0 {
        Seq::empty()
    } else {
        (match s[0] {
            PartV::Plain(t) => t,
            PartV::Name(_) => seq!['{', '}'],
        }) + parts_format(s.drop_first())
    }
}

/// The names of a run of parts.
pub open spec fn part_names(s: Seq<PartV>) -> Seq<Seq<char>>
    decreases s.len(),
{
    if s.len() == 0 {
        Seq::empty()
    } else {
        (match s[0] {
            PartV::Plain(_) => Seq::<Seq<char>>::empty(),
            PartV::Name(n) => seq![n],
        }) + part_names(s.drop_first())
    }
}

proof fn lemma_brace_end_behind(a: Seq<char>, b: Seq<char>, from: int)
    requires
        0 <= from <= b.len(),
    ensures
        binding::brace_end(a + b, a.len() + from) == a.len() + binding::brace_end(b, from),
        from <= binding::brace_end(b, from) <= b.len(),
    decreases b.len() - from,
{
    if from < b.len() {
        assert((a + b)[a.len() + from] == b[from]);
        if b[from] != '}' {
            lemma_brace_end_behind(a, b, from + 1);
        }
    }
}

/// What stands in a text does not depend on what stands before it.
proof fn lemma_text_behind(a: Seq<char>, b: Seq<char>, from: int)
    requires
        0 <= from <= b.len() + 1,
    ensures
        binding::bodies(a + b, a.len() + from) == binding::bodies(b, from),
        binding::format_text(a + b, a.len() + from) == binding::format_text(b, from),
    decreases b.len() + 1 - from,
{
    let s = a + b;
    if from < b.len() {
        assert(s[a.len() + from] == b[from]);
        if b[from] == '{' {
            lemma_brace_end_behind(a, b, from + 1);
            let e = binding::brace_end(b, from + 1);
            assert(s.subrange(a.len() + from + 1, a.len() + e) =~= b.subrange(from + 1, e));
            lemma_text_behind(a, b, e + 1);
        } else {
            lemma_text_behind(a, b, from + 1);
        }
    }
}

/// Plain text stands in a format as it is.
proof fn lemma_plain_read(s: Seq<char>, from: int, to: int)
    requires
        0 <= from <= to <= s.len(),
        forall|i: int| from <= i < to ==> #[trigger] s[i] != '{',
    ensures
        binding::bodies(s, from) == binding::bodies(s, to),
        binding::format_text(s, from) == s.subrange(from, to) + binding::format_text(s, to),
    decreases to - from,
{
    if from == to {
        assert(s.subrange(from, to) + binding::format_text(s, to) =~= binding::format_text(s, to));
    } else {
        lemma_plain_read(s, from + 1, to);
        assert(seq![s[from]] + (s.subrange(from + 1, to) + binding::format_text(s, to))
            =~= s.subrange(from, to) + binding::format_text(s, to));
    }
}

proof fn lemma_close_at(s: Seq<char>, from: int, e: int)
    requires
        0 <= from <= e < s.len(),
        s[e] == '}',
        forall|i: int| from <= i < e ==> #[trigger] s[i] != '}',
    ensures
        binding::brace_end(s, from) == e,
    decreases e - from,
{
    if from < e {
        lemma_close_at(s, from + 1, e);
    }
}

/// A text with names in braces is read as its parts: the names between the
/// braces in their order, and a format with the plain parts as they stand
/// and empty braces for the names.
pub proof fn law_text_read_by_parts(parts: Seq<PartV>)
    requires
        all_proper(parts),
    ensures
        binding::bodies(parts_text(parts), 0) == part_names(parts),
        binding::format_text(parts_text(parts), 0) == parts_format(parts),
    decreases parts.len(),
{
    let s = parts_text(parts);
    if parts.len() > 0 {
        let rest = parts.drop_first();
        assert forall|i: int| 0 <= i < rest.len() implies proper(#[trigger] rest[i]) by {
            assert(rest[i] == parts[i + 1]);
        }
        law_text_read_by_parts(rest);
        assert(proper(parts[0]));
        let tail = parts_text(rest);
        match parts[0] {
            PartV::Plain(t) => {
                assert(s == t + tail);
                assert forall|i: int| 0 <= i < t.len() implies #[trigger] s[i] != '{' by {
                    assert(s[i] == t[i]);
                }
                lemma_plain_read(s, 0, t.len() as int);
                lemma_text_behind(t, tail, 0);
                assert(s.subrange(0, t.len() as int) =~= t);
                assert(Seq::<Seq<char>>::empty() + part_names(rest) =~= part_names(rest));
            },
            PartV::Name(n) => {
                let head = seq!['{'] + n + seq!['}'];
                assert(s == head + tail);
                let e = (n.len() + 1) as int;
                assert(s[0] == '{' && s[e] == '}');
                assert forall|i: int| 1 <= i < e implies #[trigger] s[i] != '}' by {
                    assert(s[i] == n[i - 1]);
                }
                lemma_close_at(s, 1, e);
                assert(s.subrange(1, e) =~= n);
                lemma_text_behind(head, tail, 0);
                assert(head.len() == e + 1);
            },
        }
    }
}

/// The names that a text asks for are those between its braces that are not
/// quoted, each once.
pub proof fn law_names_asked_once(all: Seq<Seq<char>>)
    ensures
        binding::bind_names(all).no_duplicates(),
        forall|n: Seq<char>| #[trigger]
            binding::bind_names(all).contains(n) <==> all.contains(n) && !binding::quoted(n),
    decreases all.len(),
{
    if all.len() == 0 {
        assert forall|n: Seq<char>| #[trigger] binding::bind_names(all).contains(n) <==> all.contains(
            n,
        ) && !binding::quoted(n) by {}
    } else {
        let front = all.drop_last();
        law_names_asked_once(front);
        let had = binding::bind_names(front);
        let out = binding::bind_names(all);
        assert forall|n: Seq<char>| #[trigger] out.contains(n) <==> all.contains(n)
            && !binding::quoted(n) by {
            assert(had.contains(n) <==> front.contains(n) && !binding::quoted(n));
            if all.contains(n) {
                let i = choose|i: int| 0 <= i < all.len() && all[i] == n;
                if i < front.len() {
                    assert(front[i] == n);
                }
            }
            if front.contains(n) {
                let i = choose|i: int| 0 <= i < front.len() && front[i] == n;
                assert(all[i] == n);
            }
            if had.contains(n) {
                let i = choose|i: int| 0 <= i < had.len() && had[i] == n;
                assert(out[i] == n);
            }
            if out.contains(n) {
                let i = choose|i: int| 0 <= i < out.len() && out[i] == n;
                if i < had.len() {
                    assert(had[i] == n);
                } else {
                    assert(n == all.last());
                    assert(all[all.len() - 1] == n);
                }
            }
            if n == all.last() && !binding::quoted(n) && !had.contains(n) {
                assert(out[had.len() as int] == n);
            }
        }
        if out.len() > had.len() {
            assert forall|i: int, j: int|
                0 <= i < out.len() && 0 <= j < out.len() && i != j implies out[i] != out[j] by {
                if i == had.len() {
                    assert(had[j] == out[j]);
                    assert(had.contains(had[j]));
                } else if j == had.len() {
                    assert(had[i] == out[i]);
                    assert(had.contains(had[i]));
                } else {
                    assert(had[i] == out[i] && had[j] == out[j]);
                }
            }
        }
    }
}

/// A text of proper parts with a name among them becomes a format over the
/// wires of the names it asks for, in their order; without one it is a
/// constant.
pub proof fn law_text_bound(c: CompilerV, name: Seq<char>, parts: Seq<PartV>)
    requires
        all_proper(parts),
    ensures
        ({
            let d = binding::text_bound(c, name, parts_text(parts));
            let n = d.graph.nodes.last();
            &&& d.graph.nodes.drop_last() == c.graph.nodes
            &&& n.name == name
            &&& part_names(parts).len() == 0 ==> n.kind == KindV::ConstStr(parts_text(parts))
                && n.wires.len() == 0
            &&& part_names(parts).len() > 0 ==> {
                let names = binding::bind_names(part_names(parts));
                &&& n.kind == KindV::Printf(parts_format(parts), names.len())
                &&& n.wires == Seq::new(names.len(), |i: int| c.wire_of(names[i]))
            }
        }),
{
    let s = parts_text(parts);
    law_text_read_by_parts(parts);
    lemma_names_proper(parts);
    let d = binding::text_bound(c, name, s);
    assert(d.graph.nodes.drop_last() =~= c.graph.nodes);
    if part_names(parts).len() > 0 {
        lemma_braces_there(parts);
        assert(binding::placeholder(binding::bodies(s, 0)[0]));
    }
}

proof fn lemma_names_proper(parts: Seq<PartV>)
    requires
        all_proper(parts),
    ensures
        forall|i: int|
            0 <= i < part_names(parts).len() ==> binding::placeholder(#[trigger] part_names(parts)[i]),
    decreases parts.len(),
{
    if parts.len() > 0 {
        let rest = parts.drop_first();
        assert forall|i: int| 0 <= i < rest.len() implies proper(#[trigger] rest[i]) by {
            assert(rest[i] == parts[i + 1]);
        }
        lemma_names_proper(rest);
        assert(proper(parts[0]));
        let all = part_names(parts);
        assert forall|i: int| 0 <= i < all.len() implies binding::placeholder(#[trigger] all[i]) by {
            match parts[0] {
                PartV::Plain(_) => {
                    assert(all[i] == part_names(rest)[i]);
                },
                PartV::Name(n) => {
                    if i > 0 {
                        assert(all[i] == part_names(rest)[i - 1]);
                    }
                },
            }
        }
    }
}

proof fn lemma_braces_there(parts: Seq<PartV>)
    requires
        part_names(parts).len() > 0,
    ensures
        parts_text(parts).contains('{'),
        parts_text(parts).contains('}'),
    decreases parts.len(),
{
    if parts.len() > 0 {
        let rest = parts.drop_first();
        let s = parts_text(parts);
        let tail = parts_text(rest);
        match parts[0] {
            PartV::Plain(t) => {
                assert(part_names(parts) =~= part_names(rest));
                lemma_braces_there(rest);
                let i = choose|i: int| 0 <= i < tail.len() && tail[i] == '{';
                let j = choose|j: int| 0 <= j < tail.len() && tail[j] == '}';
                assert(s[t.len() + i] == '{');
                assert(s[t.len() + j] == '}');
            },
            PartV::Name(n) => {
                assert(s[0] == '{');
                assert(s[(n.len() + 1) as int] == '}');
            },
        }
    }
}

// ---------------------------------------------------------------------
// Declarations
// ---------------------------------------------------------------------

/// A shared cell is an input that is written from outside and begins with
/// the written value, handed on under its name.
pub proof fn law_shared_cell<T: Toolbox>(t: T, c: CompilerV, b: BindingV)
    requires
        b.targets.len() == 1,
        b.modifier.shared && !b.modifier.constant && !b.modifier.volatile,
        b.annotation is None,
        compile::literal_value(b.value) is Some,
    ensures
        ({
            let (d, r) = compile::statement_lowered(t, c, StatementV::Binding(b));
            let name = b.targets[0];
            let (v, port) = compile::literal_value(b.value)->0;
            &&& r is Ok
            &&& d.graph.inputs == c.graph.inputs.push(
                SlotV { name, default: v, port, kind: InputKind::ExternalWrite },
            )
            &&& d.input_names == c.input_names.push(name)
            &&& d.graph.outputs.last().0 == name
            &&& d.graph.modifiers.last().0 == name && d.graph.modifiers.last().1.shared
        }),
{
}

/// A declared port is an input of its type. With a default it begins with
/// that and is written from outside; without one it begins with nothing and
/// the scope around writes it.
pub proof fn law_declared_port<T: Toolbox>(
    t: T,
    c: CompilerV,
    name: Seq<char>,
    port: PortType,
    default: Option<ExprV>,
    span: Span,
)
    requires
        default matches Some(e) ==> compile::default_value(e, port) is Ok,
    ensures
        ({
            let (d, r) = compile::statement_lowered(
                t,
                c,
                StatementV::ExternPort(name, value::port_keyword(port), default, span),
            );
            &&& r is Ok
            &&& d.graph.inputs.drop_last() == c.graph.inputs
            &&& d.graph.inputs.last().name == name
            &&& d.graph.inputs.last().port == port
            &&& default is None ==> d.graph.inputs.last().default is Nothing
                && d.graph.inputs.last().kind is IterationExtern
            &&& default matches Some(e) ==> Ok::<DatumV, Seq<char>>(d.graph.inputs.last().default)
                == compile::default_value(e, port) && d.graph.inputs.last().kind is ExternalWrite
            &&& d.input_names == c.input_names.push(name)
            &&& d.graph.outputs.last().0 == name
        }),
{
    value::law_keyword_round_trip(port);
    let (d, r) = compile::statement_lowered(
        t,
        c,
        StatementV::ExternPort(name, value::port_keyword(port), default, span),
    );
    assert(d.graph.inputs.drop_last() =~= c.graph.inputs);
}

/// A cast keeps a value of its own type, widens a whole number to a double,
/// reads a whole number from a text, and does nothing else.
pub proof fn law_casts(name: Seq<char>, from: PortType, to: PortType)
    ensures
        binding::fusion(name, from, to) is Ok <==> from == to || (from == PortType::U64 && to
            == PortType::F64) || (from == PortType::Str && to == PortType::U64),
        from == to ==> binding::fusion(name, from, to) == Ok::<KindV, Seq<char>>(
            KindV::PortPassthrough(name, to),
        ),
        binding::fusion(name, from, to) matches Ok(k) ==> assembly::kind_port(k, 0) == Some(to),
{
}

} // verus!
