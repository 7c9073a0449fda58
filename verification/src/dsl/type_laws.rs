//! What types expressions are taken to have, and what is recorded of names.
use crate::chars;
use crate::dsl::assembly;
use crate::dsl::assembly::{GraphV, WireV};
use crate::dsl::ast::{BinOpKind, BindingModifier, ExprV, Span};
use crate::dsl::binding;
use crate::dsl::compile;
use crate::dsl::compiler::{CompilerV, Toolbox};
use crate::dsl::refs;
use crate::dsl::registry::DefaultResolver;
use crate::dsl::schema::DeferredV;
use crate::float;
use crate::value::PortType;
use vstd::prelude::*;

verus! {

// ---------------------------------------------------------------------
// Types of expressions
// ---------------------------------------------------------------------

/// An operator that works on doubles widens those of its operands that are
/// whole numbers, and only those; one that works on whole numbers or on
/// texts widens none. A power is always of doubles.
pub proof fn law_widened_operands(op: BinOpKind, lt: PortType, rt: PortType)
    ensures
        binding::operation(op, lt, rt) matches Ok((f, wl, wr)) ==> {
            &&& f[0] == 'f' || op is Pow ==> (wl <==> lt is U64) && (wr <==> rt is U64)
            &&& f[0] != 'f' && !(op is Pow) ==> !wl && !wr
            &&& op is Pow ==> f == "pow"@
        },
{
    reveal_strlit("u64_add");
    reveal_strlit("u64_sub");
    reveal_strlit("u64_mul");
    reveal_strlit("u64_div");
    reveal_strlit("u64_mod");
    reveal_strlit("f64_add");
    reveal_strlit("f64_sub");
    reveal_strlit("f64_mul");
    reveal_strlit("f64_div");
    reveal_strlit("f64_mod");
    reveal_strlit("u64_and");
    reveal_strlit("u64_or");
    reveal_strlit("u64_xor");
    reveal_strlit("u64_shl");
    reveal_strlit("u64_shr");
    reveal_strlit("u64_eq");
    reveal_strlit("u64_ne");
    reveal_strlit("u64_lt");
    reveal_strlit("u64_gt");
    reveal_strlit("u64_le");
    reveal_strlit("u64_ge");
    reveal_strlit("f64_eq");
    reveal_strlit("f64_ne");
    reveal_strlit("f64_lt");
    reveal_strlit("f64_gt");
    reveal_strlit("f64_le");
    reveal_strlit("f64_ge");
    reveal_strlit("str_eq");
    reveal_strlit("str_ne");
    reveal_strlit("pow");
}

/// Whether an operator is one of arithmetic.
pub open spec fn arithmetic(op: BinOpKind) -> bool {
    op is Add || op is Sub || op is Mul || op is Div || op is Mod
}

/// The type that an operation over whole numbers and doubles is taken to
/// have is that of the function that is chosen for it: a double where one
/// of the operands is one, else a whole number.
pub proof fn law_type_of_an_operation<T: Toolbox>(
    t: T,
    c: CompilerV,
    l: ExprV,
    op: BinOpKind,
    r: ExprV,
)
    requires
        arithmetic(op),
        binding::inferred(t, c, l) is U64 || binding::inferred(t, c, l) is F64,
        binding::inferred(t, c, r) is U64 || binding::inferred(t, c, r) is F64,
    ensures
        ({
            let lt = binding::inferred(t, c, l);
            let rt = binding::inferred(t, c, r);
            let ty = binding::inferred(t, c, ExprV::BinOp(Box::new(l), op, Box::new(r)));
            &&& ty is U64 || ty is F64
            &&& ty is F64 <==> lt is F64 || rt is F64
            &&& binding::operation(op, lt, rt) matches Ok((f, _, _)) && (f[0] == 'f' <==> ty is F64)
                && (f[0] == 'u' <==> ty is U64)
        }),
{
    reveal_strlit("u64_add");
    reveal_strlit("u64_sub");
    reveal_strlit("u64_mul");
    reveal_strlit("u64_div");
    reveal_strlit("u64_mod");
    reveal_strlit("f64_add");
    reveal_strlit("f64_sub");
    reveal_strlit("f64_mul");
    reveal_strlit("f64_div");
    reveal_strlit("f64_mod");
}

/// A sum with a text is a text; a power is a double, whatever it is of; a
/// comparison, a logical operation and one on bits are whole numbers.
pub proof fn law_type_of_other_operations<T: Toolbox>(
    t: T,
    c: CompilerV,
    l: ExprV,
    op: BinOpKind,
    r: ExprV,
)
    ensures
        ({
            let lt = binding::inferred(t, c, l);
            let rt = binding::inferred(t, c, r);
            let ty = binding::inferred(t, c, ExprV::BinOp(Box::new(l), op, Box::new(r)));
            &&& op is Add && (lt is Str || rt is Str) ==> ty is Str
            &&& op is Pow ==> ty is F64
            &&& !arithmetic(op) && !(op is Pow) ==> ty is U64
        }),
{
}

/// What is written as a value, and what is cast, is taken to have its own
/// type, before it is lowered and by its form alone.
pub proof fn law_types_of_written_values<T: Toolbox>(
    t: T,
    c: CompilerV,
    g: GraphV,
    e: ExprV,
    x: ExprV,
    ty: PortType,
    span: Span,
)
    ensures
        compile::literal_value(e) matches Some((_, port)) ==> compile::surface_type(e, g) == Some(
            port,
        ),
        compile::literal_value(e) is Some && !(e is Ident) && !(e is UnaryNeg) ==> Some(
            binding::inferred(t, c, e),
        ) == compile::surface_type(e, g),
        compile::surface_type(ExprV::Cast(Box::new(x), ty, span), g) == Some(ty),
        binding::inferred(t, c, ExprV::Cast(Box::new(x), ty, span)) == ty,
{
}

/// By its form an operation has the type of its first operand whose type is
/// known; a power is a double, and a sign changes nothing.
pub proof fn law_types_by_form(l: ExprV, op: BinOpKind, r: ExprV, g: GraphV, span: Span)
    ensures
        ({
            let whole = compile::surface_type(ExprV::BinOp(Box::new(l), op, Box::new(r)), g);
            &&& op is Pow ==> whole == Some(PortType::F64)
            &&& !(op is Pow) && compile::surface_type(l, g) is Some ==> whole
                == compile::surface_type(l, g)
            &&& !(op is Pow) && compile::surface_type(l, g) is None ==> whole
                == compile::surface_type(r, g)
        }),
        compile::surface_type(ExprV::UnaryNeg(Box::new(l), span), g) == compile::surface_type(l, g),
        compile::surface_type(ExprV::UnaryBitNot(Box::new(l), span), g) == compile::surface_type(
            l,
            g,
        ),
{
}

/// A name is taken to have the type of the input or of the node that it
/// stands for.
pub proof fn law_type_of_a_name<T: Toolbox>(t: T, c: CompilerV, name: Seq<char>, span: Span)
    requires
        c.graph.wire_type(c.wire_of(name)) is Some,
    ensures
        Some(binding::inferred(t, c, ExprV::Ident(name, span))) == c.graph.wire_type(
            c.wire_of(name),
        ),
{
}

// ---------------------------------------------------------------------
// Lists
// ---------------------------------------------------------------------

proof fn lemma_joined(a: Seq<Seq<char>>, b: Seq<Seq<char>>, sep: Seq<char>)
    requires
        a.len() > 0,
        b.len() > 0,
    ensures
        chars::joined(a + b, sep) == chars::joined(a, sep) + sep + chars::joined(b, sep),
    decreases b.len(),
{
    assert((a + b).drop_last() =~= a + b.drop_last());
    assert((a + b).last() == b.last());
    if b.len() == 1 {
        assert(a + b.drop_last() =~= a);
        assert(b.drop_last() =~= Seq::<Seq<char>>::empty());
        assert(chars::joined(b, sep) =~= b.last());
    } else {
        lemma_joined(a, b.drop_last(), sep);
        assert(chars::joined(a + b, sep) =~= chars::joined(a, sep) + sep + chars::joined(b, sep));
    }
}

/// The text of a list is that of its elements in their order, with a comma
/// and a space between them.
pub proof fn law_text_of_a_list(a: Seq<ExprV>, b: Seq<ExprV>, e: ExprV)
    ensures
        binding::list_text(seq![e]) == binding::element_text(e),
        a.len() > 0 && b.len() > 0 ==> binding::list_text(a + b) == binding::list_text(a) + ", "@
            + binding::list_text(b),
{
    let one = Seq::new(1, |i: int| binding::element_text(seq![e][i]));
    assert(one.drop_last() =~= Seq::<Seq<char>>::empty());
    assert(one.last() == binding::element_text(e));
    assert(chars::joined(one, ", "@) =~= binding::element_text(e));
    if a.len() > 0 && b.len() > 0 {
        let x = Seq::new(a.len(), |i: int| binding::element_text(a[i]));
        let y = Seq::new(b.len(), |i: int| binding::element_text(b[i]));
        let z = Seq::new((a + b).len(), |i: int| binding::element_text((a + b)[i]));
        assert(z =~= x + y);
        lemma_joined(x, y, ", "@);
    }
}

/// A whole number in a list is written by its digits, a negative one with a
/// sign before them.
pub proof fn law_numbers_in_a_list(n: u64, x: ExprV, span: Span)
    ensures
        chars::read_u64(binding::element_text(ExprV::IntLit(n, span))) == Some(n),
        binding::element_text(ExprV::UnaryNeg(Box::new(x), span)) == "-"@
            + binding::element_text(x),
{
    chars::law_decimal_reads_back(n);
}

/// The doubles of a list stand in the order of its elements; a whole number
/// becomes the double nearest to it.
pub proof fn law_doubles_of_a_list(elems: Seq<ExprV>, i: int)
    requires
        0 <= i < elems.len(),
    ensures
        binding::doubles_of(elems).len() == elems.len(),
        elems[i] matches ExprV::FloatLit(x, _, _) ==> binding::doubles_of(elems)[i] == x,
        elems[i] matches ExprV::IntLit(n, _) ==> float::nearest(
            binding::doubles_of(elems)[i].bits,
            n as nat * float::one_in_units(),
            1,
        ),
{
    match elems[i] {
        ExprV::IntLit(n, _) => {
            float::lemma_rounded_nearest(n as nat * float::one_in_units(), 1);
        },
        _ => {},
    }
}

// ---------------------------------------------------------------------
// What is recorded of names
// ---------------------------------------------------------------------

/// The names that a binding with modifiers binds have these modifiers, and
/// other names keep theirs.
pub proof fn law_modifiers_recorded(
    c: CompilerV,
    targets: Seq<Seq<char>>,
    m: BindingModifier,
    n: Seq<char>,
)
    requires
        m != BindingModifier::plain(),
    ensures
        ({
            let after = assembly::modifier_of(compile::marked(c, targets, m).graph.modifiers, n);
            &&& targets.contains(n) ==> after == m
            &&& !targets.contains(n) ==> after == assembly::modifier_of(c.graph.modifiers, n)
        }),
    decreases targets.len(),
{
    if targets.len() > 0 {
        let front = targets.drop_last();
        law_modifiers_recorded(c, front, m, n);
        let before = compile::marked(c, front, m).graph.modifiers;
        assert(compile::marked(c, targets, m).graph.modifiers == before.push((targets.last(), m)));
        assert(before.push((targets.last(), m)).drop_last() =~= before);
        if targets.contains(n) && n != targets.last() {
            let i = choose|i: int| 0 <= i < targets.len() && targets[i] == n;
            assert(front[i] == n);
        }
        if front.contains(n) {
            let i = choose|i: int| 0 <= i < front.len() && front[i] == n;
            assert(targets[i] == n);
        }
        assert(targets[targets.len() - 1] == targets.last());
    }
}

/// Every name of a constant is recorded as one. Where its value refers to
/// other names it has an input, which the scope around may fill; where it
/// does not, no input is added.
pub proof fn law_constants_recorded(c: CompilerV, targets: Seq<Seq<char>>, e: ExprV, n: Seq<char>)
    ensures
        ({
            let d = compile::constants(c, targets, e);
            &&& d.graph.const_outputs == c.graph.const_outputs + targets
            &&& refs::references(e).len() > 0 && targets.contains(n) ==> d.graph.has_input(n)
            &&& refs::references(e).len() == 0 ==> d.graph.inputs == c.graph.inputs
            &&& d.graph.nodes == c.graph.nodes
            &&& c.graph.has_input(n) ==> d.graph.input_type(n) == c.graph.input_type(n)
        }),
    decreases targets.len(),
{
    let d = compile::constants(c, targets, e);
    if targets.len() == 0 {
        assert(d.graph.const_outputs =~= c.graph.const_outputs + targets);
    } else {
        let front = targets.drop_last();
        law_constants_recorded(c, front, e, n);
        let before = compile::constants(c, front, e);
        let name = targets.last();
        assert(d.graph.const_outputs =~= c.graph.const_outputs + targets);
        if targets.contains(n) && n != name {
            let i = choose|i: int| 0 <= i < targets.len() && targets[i] == n;
            assert(front[i] == n);
        }
        let g = before.graph.with_const(name);
        assert(g.inputs == before.graph.inputs);
        if refs::references(e).len() > 0 && !g.has_input(name) {
            assert(d.graph.inputs.drop_last() =~= before.graph.inputs);
            assert(d.graph.inputs.last().name == name);
        }
    }
}

/// The bounds that are asked for are those of the cursors that wait.
pub proof fn law_bounds_asked_for(d: Seq<DeferredV>, n: Seq<char>)
    ensures
        compile::waiting(d).contains(n) <==> exists|i: int|
            0 <= i < d.len() && ((#[trigger] d[i]).start == n || d[i].end == n),
    decreases d.len(),
{
    let all = compile::waiting(d);
    if d.len() > 0 {
        let rest = d.drop_last();
        law_bounds_asked_for(rest, n);
        let front = compile::waiting(rest);
        assert(all == front.push(d.last().start).push(d.last().end));
        if front.contains(n) {
            let k = choose|k: int| 0 <= k < front.len() && front[k] == n;
            assert(all[k] == n);
            let i = choose|i: int|
                0 <= i < rest.len() && ((#[trigger] rest[i]).start == n || rest[i].end == n);
            assert(d[i] == rest[i]);
        }
        assert(all[front.len() as int] == d.last().start);
        assert(all[front.len() as int + 1] == d.last().end);
        assert(d[d.len() - 1] == d.last());
        if exists|i: int|
            0 <= i < d.len() && ((#[trigger] d[i]).start == n || d[i].end == n) {
            let i = choose|i: int|
                0 <= i < d.len() && ((#[trigger] d[i]).start == n || d[i].end == n);
            if i < rest.len() {
                assert(rest[i] == d[i]);
            }
        }
        if all.contains(n) {
            let k = choose|k: int| 0 <= k < all.len() && all[k] == n;
            if k < front.len() {
                assert(front[k] == n);
            }
        }
    }
}

// ---------------------------------------------------------------------
// Handles
// ---------------------------------------------------------------------

/// Without a resolver a call is fed what it was given.
pub proof fn law_fed_as_given<T: Toolbox>(
    t: T,
    c: CompilerV,
    ins: Seq<PortType>,
    wires: Seq<WireV>,
)
    ensures
        binding::promoted(t, c, None, ins, wires) == (c, Ok::<Seq<WireV>, Seq<char>>(wires)),
    decreases wires.len(),
{
    if wires.len() == 0 {
        assert(wires =~= Seq::<WireV>::empty());
    } else {
        law_fed_as_given(t, c, ins, wires.drop_last());
        assert(wires.drop_last().push(wires.last()) =~= wires);
    }
}

/// With a resolver, what does not feed a handle reaches the call as it was
/// given; the number of wires stays.
pub proof fn law_only_handles_are_resolved<T: Toolbox>(
    t: T,
    c: CompilerV,
    resolver: Option<DefaultResolver>,
    ins: Seq<PortType>,
    wires: Seq<WireV>,
)
    ensures
        binding::promoted(t, c, resolver, ins, wires).1 matches Ok(fed) ==> {
            &&& fed.len() == wires.len()
            &&& forall|i: int|
                0 <= i < wires.len() && (i >= ins.len() || !(ins[i] is Handle)) ==> #[trigger] fed[i]
                    == wires[i]
        },
    decreases wires.len(),
{
    if wires.len() > 0 {
        law_only_handles_are_resolved(t, c, resolver, ins, wires.drop_last());
    }
}

} // verus!
