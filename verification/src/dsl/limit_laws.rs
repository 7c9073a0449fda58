//! What a limit on every cursor keeps.
use crate::chars;
use crate::dsl::assembly;
use crate::dsl::assembly::{BuiltV, KindV, WireV};
use crate::dsl::ast::{ArgV, BinOpKind, BindingModifier, CursorDeclV, ExprV, Span, StatementV};
use crate::dsl::binding;
use crate::dsl::compile;
use crate::dsl::compiler;
use crate::dsl::compiler::{CompilerV, Toolbox};
use crate::dsl::cursor;
use crate::dsl::cursor::Family;
use crate::dsl::cursor_sugar::AuxV;
use crate::dsl::factory::ConstV;
use crate::dsl::registry::{DefaultResolver, SlotType};
use crate::dsl::schema::{DeferredV, SchemaV};
use crate::float::Float64;
use crate::value::{DatumV, PortType};
use vstd::prelude::*;

verus! {

/// Whether every cursor of a run has an extent that is not over a limit,
/// and records that limit.
pub open spec fn all_within(schemas: Seq<SchemaV>, l: u64) -> bool {
    forall|i: int|
        0 <= i < schemas.len() ==> {
            &&& (#[trigger] schemas[i]).extent is Some
            &&& schemas[i].extent->Some_0 <= l
            &&& schemas[i].extent_limit == Some(l)
        }
}

/// Whether a state has a limit, and every cursor is within it.
pub open spec fn within(c: CompilerV, l: u64) -> bool {
    c.limit == Some(l) && all_within(c.schemas, l)
}

/// Whether the modules of a toolbox keep a limit.
pub open spec fn keeps_limit<T: Toolbox>(t: T, l: u64) -> bool {
    forall|c: CompilerV, func: Seq<char>, args: Seq<ArgV>, targets: Seq<Seq<char>>|
        within(c, l) ==> within((#[trigger] t.inlined(c, func, args, targets)).0, l)
}

/// Binding several names keeps the limit.
proof fn lemma_spread(
    c: CompilerV,
    internal: Seq<char>,
    outs: Seq<PortType>,
    targets: Seq<Seq<char>>,
    l: u64,
)
    requires
        within(c, l),
    ensures
        within(binding::spread(c, internal, outs, targets), l),
    decreases targets.len(),
{
    if targets.len() > 0 {
        lemma_spread(c, internal, outs, targets.drop_last(), l);
    }
}

/// Turning texts into handles keeps the limit.
proof fn lemma_promoted<T: Toolbox>(
    t: T,
    c: CompilerV,
    resolver: Option<DefaultResolver>,
    ins: Seq<PortType>,
    wires: Seq<WireV>,
    l: u64,
)
    requires
        within(c, l),
    ensures
        within(binding::promoted(t, c, resolver, ins, wires).0, l),
    decreases wires.len(),
{
    if wires.len() > 0 {
        lemma_promoted(t, c, resolver, ins, wires.drop_last(), l);
    }
}

/// The end of a call keeps the limit.
proof fn lemma_concluded<T: Toolbox>(
    t: T,
    c: CompilerV,
    targets: Seq<Seq<char>>,
    func: Seq<char>,
    args: Seq<ArgV>,
    wires: Seq<WireV>,
    consts: Seq<ConstV>,
    l: u64,
)
    requires
        within(c, l),
        keeps_limit(t, l),
    ensures
        within(binding::concluded(t, c, targets, func, args, wires, consts).0, l),
{
    let types = assembly::wire_types(c.graph, wires);
    match t.built(Some(targets[0]), func, wires, types, consts) {
        Ok(b) => {
            let resolver = binding::resolver_of(t.signature(func));
            lemma_promoted(t, c, resolver, b.ins, wires, l);
            let (c2, r) = binding::promoted(t, c, resolver, b.ins, wires);
            if r is Ok {
                lemma_placed(c2, targets, b, r->Ok_0, l);
            }
        },
        Err(e) => {
            assert(within(t.inlined(c, func, args, targets).0, l));
        },
    }
}

/// Placing a node keeps the limit.
proof fn lemma_placed(
    c: CompilerV,
    targets: Seq<Seq<char>>,
    b: BuiltV,
    wires: Seq<WireV>,
    l: u64,
)
    requires
        within(c, l),
    ensures
        within(binding::placed(c, targets, b, wires), l),
{
    if targets.len() != 1 {
        let internal = "__destruct_"@ + chars::decimal(c.handed.len());
        let c1 = c.took(internal).node(internal, KindV::Built(b), wires);
        lemma_spread(c1, internal, b.outs, targets, l);
    }
}

/// Lowering a binding keeps the limit.
proof fn lemma_bound<T: Toolbox>(
    t: T,
    c: CompilerV,
    targets: Seq<Seq<char>>,
    e: ExprV,
    l: u64,
)
    requires
        within(c, l),
        keeps_limit(t, l),
    ensures
        within(binding::bound(t, c, targets, e).0, l),
    decreases binding::weight(e), 10nat,
{
    let inner = CompilerV {
        current: if targets.len() > 0 {
            Some(targets[0])
        } else {
            c.current
        },
        ..c
    };
    lemma_lowered(t, inner, targets, e, l);
}

/// Lowering the value of a binding keeps the limit.
proof fn lemma_lowered<T: Toolbox>(
    t: T,
    c: CompilerV,
    targets: Seq<Seq<char>>,
    e: ExprV,
    l: u64,
)
    requires
        within(c, l),
        keeps_limit(t, l),
    ensures
        within(binding::lowered(t, c, targets, e).0, l),
    decreases binding::weight(e), 9nat,
{
    let name = targets[0];
    match e {
        ExprV::Call(func, args, span) => lemma_call(t, c, targets, func, args, span, l),
        ExprV::BinOp(a, op, b) => lemma_operator(t, c, name, *a, op, *b, l),
        ExprV::UnaryNeg(x, _) => {
            let c1 = c.anon_node(
                KindV::ConstF64(Float64 { bits: 0 }),
                Seq::empty(),
            );
            lemma_intermediate(t, c1, *x, l);
        },
        ExprV::UnaryBitNot(x, _) => lemma_intermediate(t, c, *x, l),
        ExprV::Cast(x, to, _) => lemma_operand(t, c, *x, l),
        _ => {},
    }
}

/// Lowering a call keeps the limit.
proof fn lemma_call<T: Toolbox>(
    t: T,
    c: CompilerV,
    targets: Seq<Seq<char>>,
    func: Seq<char>,
    args: Seq<ArgV>,
    span: Span,
    l: u64,
)
    requires
        within(c, l),
        keeps_limit(t, l),
    ensures
        within(binding::lowered_call(t, c, targets, func, args, span).0, l),
    decreases binding::weight(ExprV::Call(func, args, span)), 8nat,
{
    if func == "if"@ {
        if args.len() == 3 {
            binding::lemma_selection_weight(t, c, args, span);
            lemma_bound(t, c, targets, binding::selection(t, c, args, span), l);
        }
    } else {
        let sig = t.signature(func);
        let slots = binding::slots_of(sig);
        let variadic = binding::takes_wires(sig);
        lemma_arguments(t, c, slots, variadic, args, l);
        let (c1, r) = binding::arguments(t, c, slots, variadic, args);
        if r is Ok {
            lemma_concluded(t, c1, targets, func, args, r->Ok_0.0, r->Ok_0.1, l);
        }
    }
}

/// Lowering arguments keeps the limit.
proof fn lemma_arguments<T: Toolbox>(
    t: T,
    c: CompilerV,
    slots: Seq<SlotType>,
    variadic: bool,
    args: Seq<ArgV>,
    l: u64,
)
    requires
        within(c, l),
        keeps_limit(t, l),
    ensures
        within(binding::arguments(t, c, slots, variadic, args).0, l),
    decreases binding::args_weight(args), 20nat,
{
    if args.len() > 0 {
        let e = args.last().value;
        binding::lemma_weight_positive(e);
        lemma_arguments(t, c, slots, variadic, args.drop_last(), l);
        let c1 = binding::arguments(t, c, slots, variadic, args.drop_last()).0;
        lemma_argument(t, c1, binding::wants_wire(slots, variadic, args.len() - 1), e, l);
    }
}

/// Lowering an argument keeps the limit.
proof fn lemma_argument<T: Toolbox>(t: T, c: CompilerV, wanted: bool, e: ExprV, l: u64)
    requires
        within(c, l),
        keeps_limit(t, l),
    ensures
        within(binding::argument(t, c, wanted, e).0, l),
    decreases binding::weight(e), 12nat,
{
    lemma_intermediate(t, c, e, l);
}

/// Lowering to a made-up name keeps the limit.
proof fn lemma_intermediate<T: Toolbox>(t: T, c: CompilerV, e: ExprV, l: u64)
    requires
        within(c, l),
        keeps_limit(t, l),
    ensures
        within(binding::intermediate(t, c, e).0, l),
    decreases binding::weight(e), 11nat,
{
    lemma_bound(t, c.took(c.anon()), seq![c.anon()], e, l);
}

/// Lowering an operand keeps the limit.
proof fn lemma_operand<T: Toolbox>(t: T, c: CompilerV, e: ExprV, l: u64)
    requires
        within(c, l),
        keeps_limit(t, l),
    ensures
        within(binding::operand(t, c, e).0, l),
    decreases binding::weight(e), 12nat,
{
    lemma_intermediate(t, c, e, l);
}

/// Lowering operands keeps the limit.
proof fn lemma_operands<T: Toolbox>(t: T, c: CompilerV, s: Seq<ExprV>, l: u64)
    requires
        within(c, l),
        keeps_limit(t, l),
    ensures
        within(binding::operands(t, c, s).0, l),
    decreases binding::exprs_weight(s), 20nat,
{
    if s.len() > 0 {
        binding::lemma_weight_positive(s.last());
        lemma_operands(t, c, s.drop_last(), l);
        lemma_operand(t, binding::operands(t, c, s.drop_last()).0, s.last(), l);
    }
}

/// Lowering an operator keeps the limit.
proof fn lemma_operator<T: Toolbox>(
    t: T,
    c: CompilerV,
    name: Seq<char>,
    a: ExprV,
    op: BinOpKind,
    b: ExprV,
    l: u64,
)
    requires
        within(c, l),
        keeps_limit(t, l),
    ensures
        within(binding::lowered_operator(t, c, name, a, op, b).0, l),
    decreases binding::weight(ExprV::BinOp(Box::new(a), op, Box::new(b))), 8nat,
{
    let at = binding::inferred(t, c, a);
    let bt = binding::inferred(t, c, b);
    if op == BinOpKind::Add && (at == PortType::Str || bt == PortType::Str) {
        binding::lemma_summands_weight(a);
        binding::lemma_summands_weight(b);
        binding::lemma_exprs_weight_add(binding::summands(a), binding::summands(b));
        lemma_operands(t, c, binding::summands(a) + binding::summands(b), l);
    } else {
        let logical = op == BinOpKind::And || op == BinOpKind::Or;
        let left = if logical {
            binding::truth(a)
        } else {
            a
        };
        let right = if logical {
            binding::truth(b)
        } else {
            b
        };
        binding::lemma_truth_weight(a);
        binding::lemma_truth_weight(b);
        lemma_operand(t, c, left, l);
        lemma_operand(t, binding::operand(t, c, left).0, right, l);
    }
}

/// Binding an argument of a cursor keeps the limit.
proof fn lemma_arg_bound<T: Toolbox>(
    t: T,
    c: CompilerV,
    name: Seq<char>,
    arg: ArgV,
    prefix: Seq<char>,
    l: u64,
)
    requires
        within(c, l),
        keeps_limit(t, l),
    ensures
        within(cursor::arg_bound(t, c, name, arg, prefix).0, l),
{
    lemma_bound(t, c, seq![name], arg.value, l);
}

/// Lowering what decides that a cursor goes on keeps the limit.
proof fn lemma_policies<T: Toolbox>(
    t: T,
    c: CompilerV,
    name: Seq<char>,
    f: Family,
    func: Seq<char>,
    args: Seq<ArgV>,
    l: u64,
)
    requires
        within(c, l),
        keeps_limit(t, l),
    ensures
        within(cursor::policies(t, c, name, f, func, args).0, l),
{
    let first = cursor::first_policy(f);
    lemma_policy(t, c, name, func, args, 1, first, l);
    let c1 = cursor::policy_bound(t, c, name, func, args, 1, first).0;
    lemma_policy(t, c1, name, func, args, 2, "min_passes"@, l);
    let c2 = if cursor::least_args(f) == 3 {
        cursor::policy_bound(t, c1, name, func, args, 2, "min_passes"@).0
    } else {
        c1
    };
    lemma_policy(t, c2, name, func, args, cursor::least_args(f), "delta"@, l);
}

/// Lowering an argument that decides keeps the limit.
proof fn lemma_policy<T: Toolbox>(
    t: T,
    c: CompilerV,
    name: Seq<char>,
    func: Seq<char>,
    args: Seq<ArgV>,
    i: nat,
    suffix: Seq<char>,
    l: u64,
)
    requires
        within(c, l),
        keeps_limit(t, l),
    ensures
        within(cursor::policy_bound(t, c, name, func, args, i, suffix).0, l),
{
    lemma_arg_bound(
        t,
        c,
        cursor::policy_name(name, suffix),
        args[i as int],
        cursor::failing(name, cursor::arg_label(func, i)),
        l,
    );
}

/// Lowering the constructor of a cursor keeps the limit.
proof fn lemma_constructed<T: Toolbox>(
    t: T,
    c: CompilerV,
    name: Seq<char>,
    span: Span,
    constructor: ExprV,
    l: u64,
)
    requires
        within(c, l),
        keeps_limit(t, l),
    ensures
        within(cursor::constructed(t, c, name, span, constructor).0, l),
{
    let start = cursor::bound_name(name, "_start"@);
    let end = cursor::bound_name(name, "_end"@);
    match constructor {
        ExprV::Call(func, args, _) => match cursor::family_of(func) {
            Some(f) => {
                lemma_bound(t, c, seq![start], ExprV::IntLit(0, span), l);
                let c1 = binding::bound(t, c, seq![start], ExprV::IntLit(0, span)).0;
                let prefix = cursor::failing(name, func + " base"@);
                lemma_arg_bound(t, c1, end, args[0], prefix, l);
                let c2 = cursor::arg_bound(t, c1, end, args[0], prefix).0;
                lemma_policies(t, c2, name, f, func, args, l);
            },
            None => {
                match (cursor::int_lit(args[0]), cursor::int_lit(args[1])) {
                    (Some(a), Some(b)) => {
                        lemma_bound(t, c, seq![start], ExprV::IntLit(a, span), l);
                        let c1 = binding::bound(t, c, seq![start], ExprV::IntLit(a, span)).0;
                        lemma_bound(t, c1, seq![end], ExprV::IntLit(b, span), l);
                    },
                    _ => {
                        let from = cursor::failing(name, "range start"@);
                        let to = cursor::failing(name, "range end"@);
                        lemma_arg_bound(t, c, start, args[0], from, l);
                        let c1 = cursor::arg_bound(t, c, start, args[0], from).0;
                        lemma_arg_bound(t, c1, end, args[1], to, l);
                    },
                }
            },
        },
        _ => {},
    }
}

/// Adding the bindings of a rule keeps the limit.
proof fn lemma_added<T: Toolbox>(t: T, c: CompilerV, name: Seq<char>, s: Seq<AuxV>, l: u64)
    requires
        within(c, l),
        keeps_limit(t, l),
    ensures
        within(cursor::added(t, c, name, s).0, l),
    decreases s.len(),
{
    if s.len() > 0 {
        lemma_added(t, c, name, s.drop_last(), l);
        let c1 = cursor::added(t, c, name, s.drop_last()).0;
        lemma_bound(t, c1, seq![s.last().name], s.last().value, l);
    }
}

/// Lowering a cursor keeps the limit.
proof fn lemma_cursor<T: Toolbox>(t: T, c: CompilerV, d: CursorDeclV, l: u64)
    requires
        within(c, l),
        keeps_limit(t, l),
    ensures
        within(cursor::cursor_lowered(t, c, d).0, l),
{
    let name = d.name;
    if t.rewritten(name, d.constructor) is Ok {
        let sugar = t.rewritten(name, d.constructor)->Ok_0;
        let constructor = match sugar {
            Some(s) => s.constructor,
            None => d.constructor,
        };
        let extra = match sugar {
            Some(s) => s.bindings,
            None => Seq::<AuxV>::empty(),
        };
        lemma_constructed(t, c, name, d.span, constructor, l);
        let c1 = cursor::constructed(t, c, name, d.span, constructor).0;
        let c2 = cursor::wired(
            c1,
            compiler::field_wire(name, "ordinal"@),
            DatumV::U64(0),
            PortType::U64,
        );
        lemma_added(t, c2, name, extra, l);
        let c3 = cursor::added(t, c2, name, extra).0;
        let c4 = cursor::limited(c3, name);
        match d.over {
            Some(e) => lemma_bound(t, c4, seq![cursor::over_name(name)], e, l),
            None => {},
        }
    }
}

/// Marking names keeps the limit.
proof fn lemma_marked(
    c: CompilerV,
    targets: Seq<Seq<char>>,
    m: BindingModifier,
    l: u64,
)
    requires
        within(c, l),
    ensures
        within(compile::marked(c, targets, m), l),
    decreases targets.len(),
{
    if targets.len() > 0 {
        lemma_marked(c, targets.drop_last(), m, l);
    }
}

/// Recording constants keeps the limit.
proof fn lemma_constants(c: CompilerV, targets: Seq<Seq<char>>, e: ExprV, l: u64)
    requires
        within(c, l),
    ensures
        within(compile::constants(c, targets, e), l),
    decreases targets.len(),
{
    if targets.len() > 0 {
        lemma_constants(c, targets.drop_last(), e, l);
    }
}

/// Lowering a statement keeps the limit.
proof fn lemma_statement<T: Toolbox>(t: T, c: CompilerV, s: StatementV, l: u64)
    requires
        within(c, l),
        keeps_limit(t, l),
    ensures
        within(compile::statement_lowered(t, c, s).0, l),
{
    match s {
        StatementV::Binding(b) => {
            lemma_bound(t, c, b.targets, b.value, l);
            let c1 = binding::bound(t, c, b.targets, b.value).0;
            lemma_marked(c1, b.targets, b.modifier, l);
            lemma_constants(compile::marked(c1, b.targets, b.modifier), b.targets, b.value, l);
        },
        StatementV::Cursor(d) => lemma_cursor(t, c, d, l),
        _ => {},
    }
}

/// Lowering statements keeps the limit.
proof fn lemma_statements<T: Toolbox>(t: T, c: CompilerV, stmts: Seq<StatementV>, l: u64)
    requires
        within(c, l),
        keeps_limit(t, l),
    ensures
        within(compile::statements_lowered(t, c, stmts).0, l),
    decreases stmts.len(),
{
    if stmts.len() > 0 {
        lemma_statements(t, c, stmts.drop_last(), l);
        let c1 = compile::statements_lowered(t, c, stmts.drop_last()).0;
        lemma_statement(t, c1, stmts.last(), l);
    }
}

/// Lowering a program keeps the limit.
proof fn lemma_populated<T: Toolbox>(t: T, c: CompilerV, stmts: Seq<StatementV>, l: u64)
    requires
        within(c, l),
        keeps_limit(t, l),
    ensures
        within(compile::populated(t, c, stmts).0, l),
{
    assert forall|d: CompilerV| within(d, l) implies within(
        (#[trigger] compile::statements_lowered(t, d, stmts)).0,
        l,
    ) by {
        lemma_statements(t, d, stmts, l);
    }
}

/// Under a limit every cursor of a program has an extent that is not over
/// it, whatever is asked for of the program, as long as the modules that are
/// put in place of calls keep to it; the limit itself stays.
pub proof fn law_cursors_within_limit<T: Toolbox>(
    t: T,
    c: CompilerV,
    stmts: Seq<StatementV>,
    required: Option<Seq<Seq<char>>>,
    l: u64,
)
    requires
        c.limit == Some(l),
        c.schemas.len() == 0,
        keeps_limit(t, l),
    ensures
        all_within(compile::compiled(t, c, stmts).0.schemas, l),
        compile::compiled(t, c, stmts).0.limit == c.limit,
        all_within(compile::compiled_filtered(t, c, stmts, required).0.schemas, l),
        compile::compiled_filtered(t, c, stmts, required).0.limit == c.limit,
{
    lemma_populated(t, c, stmts, l);
}

/// An extent that is found out later is not over the limit either.
pub proof fn law_found_extents_within_limit(
    schemas: Seq<SchemaV>,
    deferred: Seq<DeferredV>,
    values: Seq<(Seq<char>, u64)>,
    l: u64,
)
    requires
        all_within(schemas, l),
    ensures
        all_within(compile::resolved_extents(schemas, deferred, Some(l), values), l),
    decreases deferred.len(),
{
    if deferred.len() > 0 {
        law_found_extents_within_limit(schemas, deferred.drop_last(), values, l);
    }
}

/// Under a limit every cursor of a program is within it, also once the
/// extents that waited for the values of outputs are found out.
pub proof fn law_extents_stay_within_limit<T: Toolbox>(
    t: T,
    c: CompilerV,
    stmts: Seq<StatementV>,
    required: Option<Seq<Seq<char>>>,
    values: Seq<(Seq<char>, u64)>,
    l: u64,
)
    requires
        c.limit == Some(l),
        c.schemas.len() == 0,
        keeps_limit(t, l),
    ensures
        ({
            let d = compile::compiled(t, c, stmts).0;
            all_within(compile::resolved_extents(d.schemas, d.deferred, d.limit, values), l)
        }),
        ({
            let d = compile::compiled_filtered(t, c, stmts, required).0;
            all_within(compile::resolved_extents(d.schemas, d.deferred, d.limit, values), l)
        }),
{
    law_cursors_within_limit(t, c, stmts, required, l);
    let d = compile::compiled(t, c, stmts).0;
    law_found_extents_within_limit(d.schemas, d.deferred, values, l);
    let e = compile::compiled_filtered(t, c, stmts, required).0;
    law_found_extents_within_limit(e.schemas, e.deferred, values, l);
}

} // verus!
