//! Which argument of a cursor's constructor becomes which of its outputs,
//! and what part a cursor runs over where nothing is said.
use crate::dsl::assembly::{NodeV, WireV};
use crate::dsl::ast::{ArgV, ExprV, Span};
use crate::dsl::binding;
use crate::dsl::compiler;
use crate::dsl::compiler::{CompilerV, Toolbox};
use crate::dsl::cursor;
use crate::dsl::cursor::Family;
use crate::dsl::embedding;
use crate::dsl::schema::CursorKindV;
use crate::float;
use vstd::arithmetic::power2::{lemma_pow2_adds, pow2};
use vstd::prelude::*;

verus! {

/// Whether one of the nodes from `from` on has a name and hands on a wire.
pub open spec fn hands_on(nodes: Seq<NodeV>, from: nat, name: Seq<char>, w: WireV) -> bool {
    exists|i: int|
        from <= i < nodes.len() && (#[trigger] nodes[i]).name == name && nodes[i].wires == seq![w]
}

/// Whether every argument is a name.
pub open spec fn plain_names(args: Seq<ArgV>) -> bool {
    forall|i: int|
        0 <= i < args.len() ==> (#[trigger] args[i]).name is None && args[i].value is Ident
}

/// Binding a name to a name adds a node that hands it on.
proof fn lemma_name_bound<T: Toolbox>(
    t: T,
    c: CompilerV,
    from: nat,
    name: Seq<char>,
    arg: ArgV,
    prefix: Seq<char>,
)
    requires
        arg.name is None,
        arg.value is Ident,
        from <= c.graph.nodes.len(),
    ensures
        ({
            let (d, r) = cursor::arg_bound(t, c, name, arg, prefix);
            &&& r is Ok
            &&& d.input_names == c.input_names
            &&& d.graph.nodes.len() == c.graph.nodes.len() + 1
            &&& d.graph.nodes.drop_last() == c.graph.nodes
            &&& hands_on(d.graph.nodes, from, name, c.wire_of(arg.value->Ident_0))
            &&& forall|n: Seq<char>, w: WireV| #[trigger]
                hands_on(c.graph.nodes, from, n, w) ==> hands_on(d.graph.nodes, from, n, w)
        }),
{
    let (d, r) = cursor::arg_bound(t, c, name, arg, prefix);
    let k = c.graph.nodes.len() as int;
    assert(d.graph.nodes[k].name == name);
    assert(d.graph.nodes[k].wires == seq![c.wire_of(arg.value->Ident_0)]);
    assert(d.graph.nodes.drop_last() =~= c.graph.nodes);
    assert forall|n: Seq<char>, w: WireV| #[trigger]
        hands_on(c.graph.nodes, from, n, w) implies hands_on(d.graph.nodes, from, n, w) by {
        let i = choose|i: int|
            from <= i < c.graph.nodes.len() && (#[trigger] c.graph.nodes[i]).name == n
                && c.graph.nodes[i].wires == seq![w];
        assert(d.graph.nodes[i] == c.graph.nodes[i]);
    }
}

/// A cursor over a range between two names has no known extent; it waits
/// for two outputs, the first of which hands on where the range begins and
/// the second where it ends.
pub proof fn law_range_waits_for_its_bounds<T: Toolbox>(
    t: T,
    c: CompilerV,
    name: Seq<char>,
    args: Seq<ArgV>,
    span: Span,
)
    requires
        args.len() == 2,
        plain_names(args),
    ensures
        ({
            let (d, r) = cursor::ranging(t, c, name, span, args);
            let n = c.graph.nodes.len();
            &&& r matches Ok(x) && x.extent is None && x.kind is Range && x.deferred is Some
            &&& r->Ok_0.deferred->Some_0.0 != r->Ok_0.deferred->Some_0.1
            &&& hands_on(
                d.graph.nodes,
                n,
                r->Ok_0.deferred->Some_0.0,
                c.wire_of(args[0].value->Ident_0),
            )
            &&& hands_on(
                d.graph.nodes,
                n,
                r->Ok_0.deferred->Some_0.1,
                c.wire_of(args[1].value->Ident_0),
            )
        }),
{
    let n = c.graph.nodes.len();
    let start = cursor::bound_name(name, "_start"@);
    let end = cursor::bound_name(name, "_end"@);
    assert(args[0].value is Ident);
    assert(args[1].value is Ident);
    lemma_name_bound(t, c, n, start, args[0], cursor::failing(name, "range start"@));
    let c1 = cursor::arg_bound(t, c, start, args[0], cursor::failing(name, "range start"@)).0;
    lemma_name_bound(t, c1, n, end, args[1], cursor::failing(name, "range end"@));
    assert(c1.wire_of(args[1].value->Ident_0) == c.wire_of(args[1].value->Ident_0));
    reveal_strlit("_start");
    reveal_strlit("_end");
    assert(start.len() != end.len());
}

/// Whether the outputs of a cursor that goes on hand on its arguments: what
/// decides in the order in which it is written, and what it goes on by last.
pub open spec fn fed_in_order(
    nodes: Seq<NodeV>,
    from: nat,
    kind: CursorKindV,
    c: CompilerV,
    args: Seq<ArgV>,
) -> bool {
    match kind {
        CursorKindV::Timed(a, Some(d)) | CursorKindV::Passes(a, Some(d)) | CursorKindV::Count(
            a,
            Some(d),
        ) => {
            &&& args.len() == 3
            &&& hands_on(nodes, from, a, c.wire_of(args[1].value->Ident_0))
            &&& hands_on(nodes, from, d, c.wire_of(args[2].value->Ident_0))
        },
        CursorKindV::TimedAndPasses(a, b, Some(d)) | CursorKindV::TimedOrPasses(a, b, Some(d)) => {
            &&& args.len() == 4
            &&& hands_on(nodes, from, a, c.wire_of(args[1].value->Ident_0))
            &&& hands_on(nodes, from, b, c.wire_of(args[2].value->Ident_0))
            &&& hands_on(nodes, from, d, c.wire_of(args[3].value->Ident_0))
        },
        _ => false,
    }
}

/// A cursor that goes on begins with as many steps as its first argument
/// says, decides by the arguments that follow, and goes on by the last.
pub proof fn law_going_on_takes_its_arguments<T: Toolbox>(
    t: T,
    c: CompilerV,
    name: Seq<char>,
    span: Span,
    f: Family,
    func: Seq<char>,
    args: Seq<ArgV>,
)
    requires
        args.len() == cursor::least_args(f) + 1,
        plain_names(args),
    ensures
        ({
            let (d, r) = cursor::extending(t, c, name, span, f, func, args);
            let n = c.graph.nodes.len();
            &&& r is Ok
            &&& r->Ok_0.extent is None
            &&& r->Ok_0.deferred is Some
            &&& hands_on(
                d.graph.nodes,
                n,
                r->Ok_0.deferred->Some_0.1,
                c.wire_of(args[0].value->Ident_0),
            )
            &&& fed_in_order(d.graph.nodes, n, r->Ok_0.kind, c, args)
        }),
{
    let n = c.graph.nodes.len();
    let start = cursor::bound_name(name, "_start"@);
    let end = cursor::bound_name(name, "_end"@);
    assert(args[0].value is Ident && args[0].name is None);
    assert(args[1].value is Ident && args[1].name is None);
    assert(args[2].value is Ident && args[2].name is None);
    let c1 = binding::bound(t, c, seq![start], ExprV::IntLit(0, span)).0;
    assert(c1.input_names == c.input_names);
    assert(c1.graph.nodes.len() == n + 1);
    let p0 = cursor::failing(name, func + " base"@);
    lemma_name_bound(t, c1, n, end, args[0], p0);
    let c2 = cursor::arg_bound(t, c1, end, args[0], p0).0;
    let a1 = cursor::policy_name(name, cursor::first_policy(f));
    let p1 = cursor::failing(name, cursor::arg_label(func, 1));
    lemma_name_bound(t, c2, n, a1, args[1], p1);
    let c3 = cursor::arg_bound(t, c2, a1, args[1], p1).0;
    let p2 = cursor::failing(name, cursor::arg_label(func, 2));
    let delta = cursor::policy_name(name, "delta"@);
    if cursor::least_args(f) == 3 {
        let passes = cursor::policy_name(name, "min_passes"@);
        assert(args[3].value is Ident && args[3].name is None);
        lemma_name_bound(t, c3, n, passes, args[2], p2);
        let c4 = cursor::arg_bound(t, c3, passes, args[2], p2).0;
        let p3 = cursor::failing(name, cursor::arg_label(func, 3));
        lemma_name_bound(t, c4, n, delta, args[3], p3);
    } else {
        lemma_name_bound(t, c3, n, delta, args[2], p2);
    }
}

/// A cursor that goes on with too few arguments or too many is refused.
pub proof fn law_going_on_counts_its_arguments<T: Toolbox>(
    t: T,
    c: CompilerV,
    name: Seq<char>,
    span: Span,
    f: Family,
    func: Seq<char>,
    args: Seq<ArgV>,
)
    requires
        args.len() < cursor::least_args(f) || args.len() > cursor::least_args(f) + 1,
    ensures
        cursor::extending(t, c, name, span, f, func, args).1 is Err,
        cursor::extending(t, c, name, span, f, func, args).0 == c,
{
}

proof fn lemma_hundred()
    ensures
        float::units(cursor::HUNDRED_BITS) == 100 * float::one_in_units(),
        float::units(0) == 0,
{
    let b = cursor::HUNDRED_BITS;
    let q = 0x10_0000_0000_0000u64;
    assert(0x4059_0000_0000_0000u64 / 0x10_0000_0000_0000u64 == 1029u64) by (bit_vector);
    assert(0x4059_0000_0000_0000u64 % 0x10_0000_0000_0000u64 == 0x9_0000_0000_0000u64) by (bit_vector);
    vstd::arithmetic::power2::lemma2_to64();
    lemma_pow2_adds(46, 1028);
    let x = pow2(1028);
    let y = pow2(1074);
    assert(pow2(46) == 0x4000_0000_0000) by {
        vstd::arithmetic::power2::lemma2_to64_rest();
    }
    assert(0x4000_0000_0000 * x == y);
    assert(0x19_0000_0000_0000 * x == 100 * (0x4000_0000_0000 * x)) by (nonlinear_arith);
}

/// Where nothing is said a cursor runs over the whole: over the first of one
/// part, from no percent to a hundred. Each of the inputs for this has the
/// type of what it begins with.
pub proof fn law_the_whole_is_the_usual_part(c: CompilerV, name: Seq<char>)
    ensures
        ({
            let d = cursor::partition_slots(c, name);
            let part = compiler::field_wire(name, "cursor"@);
            let n = c.graph.inputs.len() as int;
            let new = d.graph.inputs;
            &&& new.len() == n + 7
            &&& new.take(n) == c.graph.inputs
            &&& new[n].name == part && new[n].port is Ext && new[n].default is Nothing
            &&& new[n + 1].name == compiler::field_wire(part, "idx"@)
            &&& new[n + 2].name == compiler::field_wire(part, "partition_count"@)
            &&& new[n + 1].default->U64_0 + 1 == new[n + 2].default->U64_0
            &&& new[n + 2].default->U64_0 == 1
            &&& new[n + 3].name == compiler::field_wire(part, "start_pct"@)
            &&& float::units(new[n + 3].default->F64_0.bits) == 0
            &&& new[n + 4].name == compiler::field_wire(part, "end_pct"@)
            &&& float::units(new[n + 4].default->F64_0.bits) == 100 * float::one_in_units()
            &&& new[n + 5].name == compiler::field_wire(part, "start_ordinal"@)
            &&& new[n + 6].name == compiler::field_wire(part, "end_ordinal"@)
            &&& new[n + 5].default->U64_0 == 0 && new[n + 6].default->U64_0 == 0
            &&& forall|i: int|
                n < i < n + 7 ==> Some((#[trigger] new[i]).port) == embedding::datum_port(
                    new[i].default,
                )
        }),
{
    lemma_hundred();
    let d = cursor::partition_slots(c, name);
    assert(d.graph.inputs.take(c.graph.inputs.len() as int) =~= c.graph.inputs);
}

} // verus!
