//! Lowering of a cursor.
//!
//! A cursor becomes an input that each step writes, a node that hands it
//! on, and a schema. The bounds of its range that are no literals become
//! outputs of their own, to be read once the graph is folded.
use crate::chars;
use crate::dsl::assembly::{InputKind, KindV, NodeKind, SlotV, WireRef, WireV};
use crate::dsl::ast;
use crate::dsl::ast::{Arg, ArgV, CallExpr, CursorDecl, CursorDeclV, Expr, ExprV, Span};
use crate::dsl::binding;
use crate::dsl::compiler;
use crate::dsl::compiler::{Compiler, CompilerV, Toolbox};
use crate::dsl::cursor_sugar;
use crate::dsl::cursor_sugar::{AuxBinding, AuxV, CursorSugar};
use crate::dsl::schema;
use crate::dsl::schema::{
    CursorKind, CursorKindV, DeferredExtent, DeferredV, SchemaV, SourceSchema,
};
use crate::float::Float64;
use crate::value::{Datum, DatumV, PortType};
use vstd::prelude::*;

verus! {

/// The double one hundred.
pub const HUNDRED_BITS: u64 = 0x4059_0000_0000_0000;

// ---------------------------------------------------------------------
// Small pieces
// ---------------------------------------------------------------------

/// The integer that an argument without a name is.
pub open spec fn int_lit(arg: ArgV) -> Option<u64> {
    match arg.name {
        Some(_) => None,
        None => match arg.value {
            ExprV::IntLit(v, _) => Some(v),
            _ => None,
        },
    }
}

/// The integer that an argument without a name is.
fn positional_int_lit(arg: &Arg) -> (r: Option<u64>)
    ensures
        r == int_lit(arg@),
{
    match arg {
        Arg::Positional(Expr::IntLit(v, _)) => Some(*v),
        _ => None,
    }
}

/// The output that gives a bound of a cursor.
pub open spec fn bound_name(cursor: Seq<char>, side: Seq<char>) -> Seq<char> {
    "__cursor_extent_"@ + cursor + side
}

/// The output that gives a bound of `cursor`.
fn extent_name(cursor: &str, side: &str) -> (r: String)
    ensures
        r@ == bound_name(cursor@, side@),
{
    let mut out: String = "__cursor_extent_".to_owned();
    out.append(cursor);
    out.append(side);
    out
}

/// The beginning of a message on what could not be lowered for a cursor.
pub open spec fn failing(cursor: Seq<char>, what: Seq<char>) -> Seq<char> {
    "cursor '"@ + cursor + "': failed to compile "@ + what + ": "@
}

/// The beginning of a message on what could not be lowered for `cursor`.
fn say_failing(cursor: &str, what: &str) -> (r: String)
    ensures
        r@ == failing(cursor@, what@),
{
    let mut out: String = "cursor '".to_owned();
    out.append(cursor);
    out.append("': failed to compile ");
    out.append(what);
    out.append(": ");
    out
}

/// Binds a name, with a message in front of why that fails.
pub open spec fn told_bound<T: Toolbox>(
    t: T,
    c: CompilerV,
    name: Seq<char>,
    e: ExprV,
    prefix: Seq<char>,
) -> (CompilerV, Result<(), Seq<char>>) {
    let (c1, r) = binding::bound(t, c, seq![name], e);
    match r {
        Ok(_) => (c1, Ok(())),
        Err(m) => (c1, Err(prefix + m)),
    }
}

/// Binds a name to an argument that has no name.
pub open spec fn arg_bound<T: Toolbox>(
    t: T,
    c: CompilerV,
    name: Seq<char>,
    arg: ArgV,
    prefix: Seq<char>,
) -> (CompilerV, Result<(), Seq<char>>) {
    match arg.name {
        None => told_bound(t, c, name, arg.value, prefix),
        Some(_) => (c, Ok(())),
    }
}

/// An input that is written from outside, and a node and an output of its
/// name that hand it on.
pub open spec fn wired(
    c: CompilerV,
    name: Seq<char>,
    default: DatumV,
    port: PortType,
) -> CompilerV {
    let g = c.graph.with_input(
        SlotV { name, default, port, kind: InputKind::ExternalWrite },
    ).with_node(name, KindV::PortPassthrough(name, port), seq![WireV::Input(name)]).with_output(
        name,
        WireV::Node(name, 0),
    );
    CompilerV { graph: g, input_names: c.input_names.push(name), ..c }
}

// ---------------------------------------------------------------------
// Extents
// ---------------------------------------------------------------------

/// What decides that a cursor goes on.
#[derive(Clone, Copy, Debug, PartialEq, Eq, Structural)]
pub enum Family {
    Elapsed,
    Passes,
    Count,
    ElapsedAndPasses,
    ElapsedOrPasses,
}

/// The family that a constructor names.
pub open spec fn family_of(func: Seq<char>) -> Option<Family> {
    if func == "until_elapsed"@ {
        Some(Family::Elapsed)
    } else if func == "until_passes"@ {
        Some(Family::Passes)
    } else if func == "until_count"@ {
        Some(Family::Count)
    } else if func == "until_elapsed_and_passes"@ {
        Some(Family::ElapsedAndPasses)
    } else if func == "until_elapsed_or_passes"@ {
        Some(Family::ElapsedOrPasses)
    } else {
        None
    }
}

/// The family that `func` names.
fn read_family(func: &str) -> (r: Option<Family>)
    ensures
        r == family_of(func@),
{
    if *func == *"until_elapsed" {
        Some(Family::Elapsed)
    } else if *func == *"until_passes" {
        Some(Family::Passes)
    } else if *func == *"until_count" {
        Some(Family::Count)
    } else if *func == *"until_elapsed_and_passes" {
        Some(Family::ElapsedAndPasses)
    } else if *func == *"until_elapsed_or_passes" {
        Some(Family::ElapsedOrPasses)
    } else {
        None
    }
}

/// The least number of arguments of a family; one more may follow.
pub open spec fn least_args(f: Family) -> nat {
    match f {
        Family::Elapsed | Family::Passes | Family::Count => 2,
        Family::ElapsedAndPasses | Family::ElapsedOrPasses => 3,
    }
}

/// What the extent of a cursor is known to be.
#[verifier::ext_equal]
pub struct ExtentV {
    pub extent: Option<u64>,
    pub deferred: Option<(Seq<char>, Seq<char>)>,
    pub kind: CursorKindV,
}

/// The output for an argument of a family.
pub open spec fn policy_name(cursor: Seq<char>, suffix: Seq<char>) -> Seq<char> {
    "__cursor_"@ + suffix + "_"@ + cursor
}

/// The output for an argument of a family.
fn build_policy_name(cursor: &str, suffix: &str) -> (r: String)
    ensures
        r@ == policy_name(cursor@, suffix@),
{
    let mut out: String = "__cursor_".to_owned();
    out.append(suffix);
    out.append("_");
    out.append(cursor);
    out
}

/// What a message calls an argument of a family.
pub open spec fn arg_label(func: Seq<char>, i: nat) -> Seq<char> {
    func + " arg "@ + chars::decimal(i)
}

/// Binds the argument of a family at a place to its output.
pub open spec fn policy_bound<T: Toolbox>(
    t: T,
    c: CompilerV,
    cursor: Seq<char>,
    func: Seq<char>,
    args: Seq<ArgV>,
    i: nat,
    suffix: Seq<char>,
) -> (CompilerV, Result<(), Seq<char>>) {
    arg_bound(
        t,
        c,
        policy_name(cursor, suffix),
        args[i as int],
        failing(cursor, arg_label(func, i)),
    )
}

/// Binds the last argument of a family, if it is there.
pub open spec fn delta_bound<T: Toolbox>(
    t: T,
    c: CompilerV,
    cursor: Seq<char>,
    func: Seq<char>,
    args: Seq<ArgV>,
    i: nat,
) -> (CompilerV, Result<Option<Seq<char>>, Seq<char>>) {
    if args.len() == i + 1 {
        let (c1, r) = policy_bound(t, c, cursor, func, args, i, "delta"@);
        match r {
            Err(e) => (c1, Err(e)),
            Ok(_) => (c1, Ok(Some(policy_name(cursor, "delta"@)))),
        }
    } else {
        (c, Ok(None))
    }
}

/// The name of the first argument that decides.
pub open spec fn first_policy(f: Family) -> Seq<char> {
    match f {
        Family::Passes => "min_passes"@,
        Family::Count => "min_count"@,
        _ => "min_ms"@,
    }
}

/// The kind of a cursor of a family.
pub open spec fn kind_of(f: Family, cursor: Seq<char>, delta: Option<Seq<char>>) -> CursorKindV {
    let first = policy_name(cursor, first_policy(f));
    let passes = policy_name(cursor, "min_passes"@);
    match f {
        Family::Elapsed => CursorKindV::Timed(first, delta),
        Family::Passes => CursorKindV::Passes(first, delta),
        Family::Count => CursorKindV::Count(first, delta),
        Family::ElapsedAndPasses => CursorKindV::TimedAndPasses(first, passes, delta),
        Family::ElapsedOrPasses => CursorKindV::TimedOrPasses(first, passes, delta),
    }
}

/// Lowers what decides that a cursor goes on.
pub open spec fn policies<T: Toolbox>(
    t: T,
    c: CompilerV,
    cursor: Seq<char>,
    f: Family,
    func: Seq<char>,
    args: Seq<ArgV>,
) -> (CompilerV, Result<CursorKindV, Seq<char>>) {
    let (c1, r1) = policy_bound(t, c, cursor, func, args, 1, first_policy(f));
    match r1 {
        Err(e) => (c1, Err(e)),
        Ok(_) => {
            let (c2, r2) = if least_args(f) == 3 {
                policy_bound(t, c1, cursor, func, args, 2, "min_passes"@)
            } else {
                (c1, Ok(()))
            };
            match r2 {
                Err(e) => (c2, Err(e)),
                Ok(_) => {
                    let (c3, r3) = delta_bound(t, c2, cursor, func, args, least_args(f));
                    match r3 {
                        Err(e) => (c3, Err(e)),
                        Ok(delta) => (c3, Ok(kind_of(f, cursor, delta))),
                    }
                },
            }
        },
    }
}

/// Lowers the constructor of a cursor that goes on.
pub open spec fn extending<T: Toolbox>(
    t: T,
    c: CompilerV,
    cursor: Seq<char>,
    span: Span,
    f: Family,
    func: Seq<char>,
    args: Seq<ArgV>,
) -> (CompilerV, Result<ExtentV, Seq<char>>) {
    let least = least_args(f);
    if args.len() < least || args.len() > least + 1 {
        (
            c,
            Err(
                "cursor '"@ + cursor + "': `"@ + func + "` takes "@ + chars::decimal(least) + "-"@
                    + chars::decimal(least + 1) + " args, got "@ + chars::decimal(args.len()),
            ),
        )
    } else {
        let start = bound_name(cursor, "_start"@);
        let end = bound_name(cursor, "_end"@);
        let c1 = binding::bound(t, c, seq![start], ExprV::IntLit(0, span)).0;
        let (c2, r) = arg_bound(t, c1, end, args[0], failing(cursor, func + " base"@));
        match r {
            Err(e) => (c2, Err(e)),
            Ok(_) => {
                let (c3, k) = policies(t, c2, cursor, f, func, args);
                match k {
                    Err(e) => (c3, Err(e)),
                    Ok(kind) => (
                        c3,
                        Ok(
                            ExtentV {
                                extent: int_lit(args[0]),
                                deferred: Some((start, end)),
                                kind,
                            },
                        ),
                    ),
                }
            },
        }
    }
}

/// How many steps there are from one place to another.
pub open spec fn steps(from: u64, to: u64) -> u64 {
    if to >= from {
        (to - from) as u64
    } else {
        0
    }
}

/// Lowers the constructor of a cursor over a range.
pub open spec fn ranging<T: Toolbox>(
    t: T,
    c: CompilerV,
    cursor: Seq<char>,
    span: Span,
    args: Seq<ArgV>,
) -> (CompilerV, Result<ExtentV, Seq<char>>) {
    let start = bound_name(cursor, "_start"@);
    let end = bound_name(cursor, "_end"@);
    match (int_lit(args[0]), int_lit(args[1])) {
        (Some(s), Some(e)) => {
            let c1 = binding::bound(t, c, seq![start], ExprV::IntLit(s, span)).0;
            let c2 = binding::bound(t, c1, seq![end], ExprV::IntLit(e, span)).0;
            (
                c2,
                Ok(
                    ExtentV {
                        extent: Some(steps(s, e)),
                        deferred: None,
                        kind: CursorKindV::Range,
                    },
                ),
            )
        },
        _ => {
            let (c1, r1) = arg_bound(t, c, start, args[0], failing(cursor, "range start"@));
            match r1 {
                Err(e) => (c1, Err(e)),
                Ok(_) => {
                    let (c2, r2) = arg_bound(t, c1, end, args[1], failing(cursor, "range end"@));
                    match r2 {
                        Err(e) => (c2, Err(e)),
                        Ok(_) => (
                            c2,
                            Ok(
                                ExtentV {
                                    extent: None,
                                    deferred: Some((start, end)),
                                    kind: CursorKindV::Range,
                                },
                            ),
                        ),
                    }
                },
            }
        },
    }
}

/// Lowers the constructor of a cursor.
pub open spec fn constructed<T: Toolbox>(
    t: T,
    c: CompilerV,
    cursor: Seq<char>,
    span: Span,
    constructor: ExprV,
) -> (CompilerV, Result<ExtentV, Seq<char>>) {
    let plain = ExtentV { extent: None, deferred: None, kind: CursorKindV::Range };
    match constructor {
        ExprV::Call(func, args, _) => match family_of(func) {
            Some(f) => extending(t, c, cursor, span, f, func, args),
            None => if func == "range"@ && args.len() >= 2 {
                ranging(t, c, cursor, span, args)
            } else {
                (c, Ok(plain))
            },
        },
        _ => (c, Ok(plain)),
    }
}

// ---------------------------------------------------------------------
// The whole cursor
// ---------------------------------------------------------------------

/// Adds the bindings of a rule, and what each step gives more.
pub open spec fn added<T: Toolbox>(
    t: T,
    c: CompilerV,
    cursor: Seq<char>,
    s: Seq<AuxV>,
) -> (CompilerV, Result<Seq<(Seq<char>, PortType)>, Seq<char>>)
    decreases s.len(),
{
    if s.len() == 0 {
        (c, Ok(Seq::empty()))
    } else {
        let (c1, front) = added(t, c, cursor, s.drop_last());
        match front {
            Err(e) => (c1, Err(e)),
            Ok(done) => {
                let a = s.last();
                let (c2, r) = told_bound(
                    t,
                    c1,
                    a.name,
                    a.value,
                    failing(cursor, "aux binding '"@ + a.name + "'"@),
                );
                match r {
                    Err(e) => (c2, Err(e)),
                    Ok(_) => match a.projection {
                        Some(p) => (
                            CompilerV {
                                graph: c2.graph.with_output(a.name, WireV::Node(a.name, 0)),
                                ..c2
                            },
                            Ok(done.push(p)),
                        ),
                        None => (c2, Ok(done)),
                    },
                }
            },
        }
    }
}

/// Puts the limit on a cursor, if there is one.
pub open spec fn limited(c: CompilerV, cursor: Seq<char>) -> CompilerV {
    match c.limit {
        Some(l) => {
            let ordinal = compiler::field_wire(cursor, "ordinal"@);
            let node = compiler::field_wire(cursor, "limit"@);
            CompilerV {
                graph: c.graph.with_node(
                    node,
                    KindV::CursorLimit(l),
                    seq![WireV::Node(ordinal, 0)],
                ).with_output(ordinal, WireV::Node(node, 0)),
                ..c
            }
        },
        None => c,
    }
}

/// The extent of a cursor under the limit.
pub open spec fn clamped(limit: Option<u64>, extent: Option<u64>) -> Option<u64> {
    match limit {
        None => extent,
        Some(l) => match extent {
            Some(e) => Some(
                if e <= l {
                    e
                } else {
                    l
                },
            ),
            None => Some(l),
        },
    }
}

/// The output for the part that a cursor runs over.
pub open spec fn over_name(cursor: Seq<char>) -> Seq<char> {
    "__cursor_"@ + cursor + "_over_raw"@
}

/// The inputs for the part that a cursor runs over: the part itself, and
/// its numbers.
pub open spec fn partition_slots(c: CompilerV, cursor: Seq<char>) -> CompilerV {
    let part = compiler::field_wire(cursor, "cursor"@);
    let zero = DatumV::F64(Float64 { bits: 0 });
    let hundred = DatumV::F64(Float64 { bits: HUNDRED_BITS });
    let c0 = wired(c, part, DatumV::Nothing, PortType::Ext);
    let c1 = wired(c0, compiler::field_wire(part, "idx"@), DatumV::U64(0), PortType::U64);
    let c2 = wired(
        c1,
        compiler::field_wire(part, "partition_count"@),
        DatumV::U64(1),
        PortType::U64,
    );
    let c3 = wired(c2, compiler::field_wire(part, "start_pct"@), zero, PortType::F64);
    let c4 = wired(c3, compiler::field_wire(part, "end_pct"@), hundred, PortType::F64);
    let c5 = wired(
        c4,
        compiler::field_wire(part, "start_ordinal"@),
        DatumV::U64(0),
        PortType::U64,
    );
    wired(c5, compiler::field_wire(part, "end_ordinal"@), DatumV::U64(0), PortType::U64)
}

/// Lowers the part that a cursor runs over.
pub open spec fn partitioned<T: Toolbox>(
    t: T,
    c: CompilerV,
    cursor: Seq<char>,
    over: Option<ExprV>,
) -> (CompilerV, Result<Option<Seq<char>>, Seq<char>>) {
    match over {
        None => (c, Ok(None)),
        Some(e) => {
            let raw = over_name(cursor);
            let (c1, r) = told_bound(t, c, raw, e, failing(cursor, "`over` expression"@));
            match r {
                Err(m) => (c1, Err(m)),
                Ok(_) => (partition_slots(c1, cursor), Ok(Some(raw))),
            }
        },
    }
}

/// Records a cursor.
pub open spec fn recorded(
    c: CompilerV,
    cursor: Seq<char>,
    x: ExtentV,
    more: Seq<(Seq<char>, PortType)>,
    partition: Option<Seq<char>>,
) -> CompilerV {
    let place = c.schemas.len();
    let known = SchemaV {
        name: cursor,
        projections: seq![("ordinal"@, PortType::U64)] + more,
        extent: clamped(c.limit, x.extent),
        extent_outputs: x.deferred,
        extent_limit: c.limit,
        kind: x.kind,
        partition,
    };
    CompilerV {
        schemas: c.schemas.push(known),
        deferred: match x.deferred {
            Some((start, end)) => c.deferred.push(DeferredV { place, start, end }),
            None => c.deferred,
        },
        ..c
    }
}

/// Lowers a cursor.
pub open spec fn cursor_lowered<T: Toolbox>(t: T, c: CompilerV, decl: CursorDeclV) -> (
    CompilerV,
    Result<(), Seq<char>>,
) {
    let name = decl.name;
    match t.rewritten(name, decl.constructor) {
        Err(e) => (c, Err(e)),
        Ok(sugar) => {
            let constructor = match sugar {
                Some(s) => s.constructor,
                None => decl.constructor,
            };
            let extra = match sugar {
                Some(s) => s.bindings,
                None => Seq::<AuxV>::empty(),
            };
            let (c1, x) = constructed(t, c, name, decl.span, constructor);
            match x {
                Err(e) => (c1, Err(e)),
                Ok(x) => {
                    let c2 = wired(
                        c1,
                        compiler::field_wire(name, "ordinal"@),
                        DatumV::U64(0),
                        PortType::U64,
                    );
                    let (c3, more) = added(t, c2, name, extra);
                    match more {
                        Err(e) => (c3, Err(e)),
                        Ok(more) => {
                            let (c4, p) = partitioned(t, limited(c3, name), name, decl.over);
                            match p {
                                Err(e) => (c4, Err(e)),
                                Ok(p) => (recorded(c4, name, x, more, p), Ok(())),
                            }
                        },
                    }
                },
            }
        },
    }
}

// ---------------------------------------------------------------------
// Lowering
// ---------------------------------------------------------------------

/// What the extent of a cursor is known to be.
struct Extent {
    extent: Option<u64>,
    deferred: Option<(String, String)>,
    kind: CursorKind,
}

/// The content of the outcome of a constructor.
spec fn extent_outcome(r: Result<Extent, String>) -> Result<ExtentV, Seq<char>> {
    match r {
        Ok(x) => Ok(
            ExtentV {
                extent: x.extent,
                deferred: schema::maybe_pair(x.deferred),
                kind: x.kind@,
            },
        ),
        Err(e) => Err(e@),
    }
}

/// The content of the outcome of what decides that a cursor goes on.
spec fn kind_outcome(r: Result<CursorKind, String>) -> Result<CursorKindV, Seq<char>> {
    match r {
        Ok(k) => Ok(k@),
        Err(e) => Err(e@),
    }
}

/// The content of the outcome of an optional output.
spec fn name_outcome(r: Result<Option<String>, String>) -> Result<Option<Seq<char>>, Seq<char>> {
    match r {
        Ok(Some(s)) => Ok(Some(s@)),
        Ok(None) => Ok(None),
        Err(e) => Err(e@),
    }
}

/// The content of the outcome of the bindings of a rule.
spec fn more_outcome(r: Result<Vec<(String, PortType)>, String>) -> Result<
    Seq<(Seq<char>, PortType)>,
    Seq<char>,
> {
    match r {
        Ok(v) => Ok(schema::projection_views(v@)),
        Err(e) => Err(e@),
    }
}

proof fn lemma_added_stop<T: Toolbox>(
    t: T,
    c: CompilerV,
    cursor: Seq<char>,
    s: Seq<AuxV>,
    k: int,
)
    requires
        0 <= k <= s.len(),
        added(t, c, cursor, s.take(k)).1 is Err,
    ensures
        added(t, c, cursor, s) == added(t, c, cursor, s.take(k)),
    decreases s.len() - k,
{
    if k == s.len() {
        assert(s.take(k) =~= s);
    } else {
        assert(s.take(k + 1).drop_last() =~= s.take(k));
        lemma_added_stop(t, c, cursor, s, k + 1);
    }
}

impl Compiler {
    /// Binds `name`, with `prefix` in front of why that fails.
    fn bind_told<T: Toolbox>(
        &mut self,
        tools: &T,
        name: &str,
        value: &Expr,
        prefix: String,
    ) -> (r: Result<(), String>)
        ensures
            (final(self)@, compiler::told(r)) == told_bound(
                *tools,
                old(self)@,
                name@,
                value@,
                prefix@,
            ),
    {
        match self.compile_binding(tools, &compiler::one_name(name), value) {
            Ok(_) => Ok(()),
            Err(m) => {
                let mut out: String = prefix;
                out.append(m.as_str());
                Err(out)
            },
        }
    }

    /// Binds `name` to an argument that has no name.
    fn bind_arg<T: Toolbox>(
        &mut self,
        tools: &T,
        name: &str,
        arg: &Arg,
        prefix: String,
    ) -> (r: Result<(), String>)
        ensures
            (final(self)@, compiler::told(r)) == arg_bound(
                *tools,
                old(self)@,
                name@,
                arg@,
                prefix@,
            ),
    {
        match arg {
            Arg::Positional(e) => self.bind_told(tools, name, e, prefix),
            Arg::Named(_, _) => Ok(()),
        }
    }

    /// Adds an input that is written from outside, and what hands it on.
    pub fn add_wired(&mut self, name: &str, default: Datum, port: PortType)
        ensures
            final(self)@ == wired(old(self)@, name@, default@, port),
    {
        self.graph.add_input(name, default, port, InputKind::ExternalWrite);
        compiler::add_name(&mut self.input_names, name);
        self.graph.add_node(
            name,
            NodeKind::PortPassthrough(name.to_owned(), port),
            compiler::one_wire(WireRef::input(name)),
        );
        self.graph.add_output(name, WireRef::node(name));
    }

    /// Binds the argument of a family at `i`.
    fn bind_policy<T: Toolbox>(
        &mut self,
        tools: &T,
        cursor: &str,
        call: &CallExpr,
        i: usize,
        suffix: &str,
    ) -> (r: Result<String, String>)
        requires
            i < call.args@.len(),
        ensures
            (final(self)@, policy_told(r)) == policy_bound(
                *tools,
                old(self)@,
                cursor@,
                call.func@,
                ast::arg_views(call.args@),
                i as nat,
                suffix@,
            ),
            r is Ok ==> r->Ok_0@ == policy_name(cursor@, suffix@),
    {
        proof {
            ast::lemma_arg_views(call.args@);
        }
        let name: String = build_policy_name(cursor, suffix);
        let mut label: String = call.func.clone();
        label.append(" arg ");
        label.append(chars::usize_text(i).as_str());
        match self.bind_arg(tools, name.as_str(), &call.args[i], say_failing(cursor, label.as_str())) {
            Ok(_) => Ok(name),
            Err(e) => Err(e),
        }
    }

    /// Binds the last argument of a family, if it is there.
    fn bind_delta<T: Toolbox>(
        &mut self,
        tools: &T,
        cursor: &str,
        call: &CallExpr,
        i: usize,
    ) -> (r: Result<Option<String>, String>)
        requires
            i < usize::MAX,
        ensures
            (final(self)@, name_outcome(r)) == delta_bound(
                *tools,
                old(self)@,
                cursor@,
                call.func@,
                ast::arg_views(call.args@),
                i as nat,
            ),
    {
        proof {
            ast::lemma_arg_views(call.args@);
        }
        if call.args.len() == i + 1 {
            match self.bind_policy(tools, cursor, call, i, "delta") {
                Ok(name) => Ok(Some(name)),
                Err(e) => Err(e),
            }
        } else {
            Ok(None)
        }
    }

    /// Lowers what decides that a cursor goes on.
    fn bind_policies<T: Toolbox>(
        &mut self,
        tools: &T,
        cursor: &str,
        family: Family,
        call: &CallExpr,
    ) -> (r: Result<CursorKind, String>)
        requires
            call.args@.len() >= least_args(family),
        ensures
            (final(self)@, kind_outcome(r)) == policies(
                *tools,
                old(self)@,
                cursor@,
                family,
                call.func@,
                ast::arg_views(call.args@),
            ),
    {
        let suffix: &str = match family {
            Family::Passes => "min_passes",
            Family::Count => "min_count",
            _ => "min_ms",
        };
        let first: String = match self.bind_policy(tools, cursor, call, 1, suffix) {
            Ok(name) => name,
            Err(e) => {
                return Err(e);
            },
        };
        let two: bool = match family {
            Family::ElapsedAndPasses | Family::ElapsedOrPasses => true,
            _ => false,
        };
        let passes: String = if two {
            match self.bind_policy(tools, cursor, call, 2, "min_passes") {
                Ok(name) => name,
                Err(e) => {
                    return Err(e);
                },
            }
        } else {
            String::new()
        };
        let last: usize = if two {
            3
        } else {
            2
        };
        let delta: Option<String> = match self.bind_delta(tools, cursor, call, last) {
            Ok(d) => d,
            Err(e) => {
                return Err(e);
            },
        };
        let kind: CursorKind = match family {
            Family::Elapsed => CursorKind::ExtendingTimed {
                min_ms_output: first,
                delta_output: delta,
            },
            Family::Passes => CursorKind::ExtendingPasses {
                min_passes_output: first,
                delta_output: delta,
            },
            Family::Count => CursorKind::ExtendingCount {
                min_count_output: first,
                delta_output: delta,
            },
            Family::ElapsedAndPasses => CursorKind::ExtendingElapsedAndPasses {
                min_ms_output: first,
                min_passes_output: passes,
                delta_output: delta,
            },
            Family::ElapsedOrPasses => CursorKind::ExtendingElapsedOrPasses {
                min_ms_output: first,
                min_passes_output: passes,
                delta_output: delta,
            },
        };
        Ok(kind)
    }

    /// Lowers the constructor of a cursor that goes on.
    fn extend_cursor<T: Toolbox>(
        &mut self,
        tools: &T,
        cursor: &str,
        span: Span,
        family: Family,
        call: &CallExpr,
    ) -> (r: Result<Extent, String>)
        ensures
            (final(self)@, extent_outcome(r)) == extending(
                *tools,
                old(self)@,
                cursor@,
                span,
                family,
                call.func@,
                ast::arg_views(call.args@),
            ),
    {
        proof {
            ast::lemma_arg_views(call.args@);
        }
        let least: usize = match family {
            Family::ElapsedAndPasses | Family::ElapsedOrPasses => 3,
            _ => 2,
        };
        let n: usize = call.args.len();
        if n < least || n > least + 1 {
            let mut m: String = "cursor '".to_owned();
            m.append(cursor);
            m.append("': `");
            m.append(call.func.as_str());
            m.append("` takes ");
            m.append(chars::usize_text(least).as_str());
            m.append("-");
            m.append(chars::usize_text(least + 1).as_str());
            m.append(" args, got ");
            m.append(chars::usize_text(n).as_str());
            return Err(m);
        }
        let start: String = extent_name(cursor, "_start");
        let end: String = extent_name(cursor, "_end");
        let zero: Expr = Expr::IntLit(0, span);
        assert(zero@ == ExprV::IntLit(0, span));
        let _ = self.compile_binding(tools, &compiler::one_name(start.as_str()), &zero);
        let mut what: String = call.func.clone();
        what.append(" base");
        match self.bind_arg(
            tools,
            end.as_str(),
            &call.args[0],
            say_failing(cursor, what.as_str()),
        ) {
            Err(e) => Err(e),
            Ok(_) => match self.bind_policies(tools, cursor, family, call) {
                Err(e) => Err(e),
                Ok(kind) => Ok(
                    Extent {
                        extent: positional_int_lit(&call.args[0]),
                        deferred: Some((start, end)),
                        kind,
                    },
                ),
            },
        }
    }

    /// Lowers the constructor of a cursor over a range.
    fn range_cursor<T: Toolbox>(
        &mut self,
        tools: &T,
        cursor: &str,
        span: Span,
        args: &Vec<Arg>,
    ) -> (r: Result<Extent, String>)
        requires
            args@.len() >= 2,
        ensures
            (final(self)@, extent_outcome(r)) == ranging(
                *tools,
                old(self)@,
                cursor@,
                span,
                ast::arg_views(args@),
            ),
    {
        proof {
            ast::lemma_arg_views(args@);
        }
        let start: String = extent_name(cursor, "_start");
        let end: String = extent_name(cursor, "_end");
        match (positional_int_lit(&args[0]), positional_int_lit(&args[1])) {
            (Some(s), Some(e)) => {
                let from: Expr = Expr::IntLit(s, span);
                let to: Expr = Expr::IntLit(e, span);
                assert(from@ == ExprV::IntLit(s, span));
                assert(to@ == ExprV::IntLit(e, span));
                let _ = self.compile_binding(tools, &compiler::one_name(start.as_str()), &from);
                let _ = self.compile_binding(tools, &compiler::one_name(end.as_str()), &to);
                let extent: u64 = if e >= s {
                    e - s
                } else {
                    0
                };
                Ok(Extent { extent: Some(extent), deferred: None, kind: CursorKind::Range })
            },
            _ => {
                match self.bind_arg(
                    tools,
                    start.as_str(),
                    &args[0],
                    say_failing(cursor, "range start"),
                ) {
                    Err(e) => {
                        return Err(e);
                    },
                    Ok(_) => {},
                }
                match self.bind_arg(
                    tools,
                    end.as_str(),
                    &args[1],
                    say_failing(cursor, "range end"),
                ) {
                    Err(e) => {
                        return Err(e);
                    },
                    Ok(_) => {},
                }
                Ok(
                    Extent {
                        extent: None,
                        deferred: Some((start, end)),
                        kind: CursorKind::Range,
                    },
                )
            },
        }
    }

    /// Lowers the constructor of a cursor.
    fn construct_cursor<T: Toolbox>(
        &mut self,
        tools: &T,
        cursor: &str,
        span: Span,
        constructor: &Expr,
    ) -> (r: Result<Extent, String>)
        ensures
            (final(self)@, extent_outcome(r)) == constructed(
                *tools,
                old(self)@,
                cursor@,
                span,
                constructor@,
            ),
    {
        match constructor {
            Expr::Call(call) => {
                proof {
                    ast::lemma_arg_views(call.args@);
                }
                match read_family(call.func.as_str()) {
                    Some(family) => {
                        return self.extend_cursor(tools, cursor, span, family, call);
                    },
                    None => {},
                }
                if *call.func.as_str() == *"range" && call.args.len() >= 2 {
                    return self.range_cursor(tools, cursor, span, &call.args);
                }
            },
            _ => {},
        }
        Ok(Extent { extent: None, deferred: None, kind: CursorKind::Range })
    }

    /// Adds the bindings of a rule.
    fn add_aux_bindings<T: Toolbox>(&mut self, tools: &T, cursor: &str, list: &Vec<AuxBinding>) -> (r:
        Result<Vec<(String, PortType)>, String>)
        ensures
            (final(self)@, more_outcome(r)) == added(
                *tools,
                old(self)@,
                cursor@,
                cursor_sugar::aux_views(list@),
            ),
    {
        let ghost all = cursor_sugar::aux_views(list@);
        let ghost start = self@;
        let mut out: Vec<(String, PortType)> = Vec::new();
        let mut i: usize = 0;
        assert(all.take(0) =~= Seq::<AuxV>::empty());
        assert(schema::projection_views(out@) =~= Seq::<(Seq<char>, PortType)>::empty());
        while i < list.len()
            invariant
                i <= list@.len(),
                all == cursor_sugar::aux_views(list@),
                start == old(self)@,
                added(*tools, start, cursor@, all.take(i as int)) == (
                    self@,
                    Ok::<Seq<(Seq<char>, PortType)>, Seq<char>>(schema::projection_views(out@)),
                ),
            decreases list.len() - i,
        {
            proof {
                assert(all.take(i + 1).drop_last() =~= all.take(i as int));
                assert(all.take(i + 1).last() == list@[i as int]@);
            }
            let ghost before = out@;
            let a: &AuxBinding = &list[i];
            let mut what: String = "aux binding '".to_owned();
            what.append(a.name.as_str());
            what.append("'");
            match self.bind_told(
                tools,
                a.name.as_str(),
                &a.value,
                say_failing(cursor, what.as_str()),
            ) {
                Err(e) => {
                    proof {
                        lemma_added_stop(*tools, start, cursor@, all, i + 1);
                    }
                    return Err(e);
                },
                Ok(_) => {},
            }
            match &a.projection {
                Some(p) => {
                    out.push((p.0.clone(), p.1));
                    self.graph.add_output(a.name.as_str(), WireRef::node(a.name.as_str()));
                    assert(schema::projection_views(out@) =~= schema::projection_views(
                        before,
                    ).push((p.0@, p.1)));
                },
                None => {},
            }
            i = i + 1;
        }
        assert(all.take(i as int) =~= all);
        Ok(out)
    }

    /// Puts the limit on a cursor.
    fn limit_cursor(&mut self, cursor: &str)
        ensures
            final(self)@ == limited(old(self)@, cursor@),
    {
        match self.cursor_limit {
            Some(l) => {
                let ordinal: String = compiler::field_name(cursor, "ordinal");
                let node: String = compiler::field_name(cursor, "limit");
                self.graph.add_node(
                    node.as_str(),
                    NodeKind::CursorLimit(l),
                    compiler::one_wire(WireRef::node(ordinal.as_str())),
                );
                self.graph.add_output(ordinal.as_str(), WireRef::node(node.as_str()));
            },
            None => {},
        }
    }

    /// Adds the inputs for the part that a cursor runs over.
    fn add_partition_slots(&mut self, cursor: &str)
        ensures
            final(self)@ == partition_slots(old(self)@, cursor@),
    {
        let part: String = compiler::field_name(cursor, "cursor");
        let base: &str = part.as_str();
        self.add_wired(base, Datum::Nothing, PortType::Ext);
        self.add_wired(
            compiler::field_name(base, "idx").as_str(),
            Datum::U64(0),
            PortType::U64,
        );
        self.add_wired(
            compiler::field_name(base, "partition_count").as_str(),
            Datum::U64(1),
            PortType::U64,
        );
        self.add_wired(
            compiler::field_name(base, "start_pct").as_str(),
            Datum::F64(Float64::from_bits(0)),
            PortType::F64,
        );
        self.add_wired(
            compiler::field_name(base, "end_pct").as_str(),
            Datum::F64(Float64::from_bits(HUNDRED_BITS)),
            PortType::F64,
        );
        self.add_wired(
            compiler::field_name(base, "start_ordinal").as_str(),
            Datum::U64(0),
            PortType::U64,
        );
        self.add_wired(
            compiler::field_name(base, "end_ordinal").as_str(),
            Datum::U64(0),
            PortType::U64,
        );
    }

    /// Lowers the part that a cursor runs over.
    fn partition_cursor<T: Toolbox>(
        &mut self,
        tools: &T,
        cursor: &str,
        over: &Option<Expr>,
    ) -> (r: Result<Option<String>, String>)
        ensures
            (final(self)@, name_outcome(r)) == partitioned(
                *tools,
                old(self)@,
                cursor@,
                ast::maybe_expr(*over),
            ),
    {
        match over {
            None => Ok(None),
            Some(e) => {
                let mut raw: String = "__cursor_".to_owned();
                raw.append(cursor);
                raw.append("_over_raw");
                match self.bind_told(
                    tools,
                    raw.as_str(),
                    e,
                    say_failing(cursor, "`over` expression"),
                ) {
                    Err(m) => Err(m),
                    Ok(_) => {
                        self.add_partition_slots(cursor);
                        Ok(Some(raw))
                    },
                }
            },
        }
    }

    /// Records a cursor.
    fn record_cursor(
        &mut self,
        cursor: &str,
        x: Extent,
        more: Vec<(String, PortType)>,
        partition: Option<String>,
    )
        ensures
            final(self)@ == recorded(
                old(self)@,
                cursor@,
                extent_outcome(Ok(x))->Ok_0,
                schema::projection_views(more@),
                schema::maybe(partition),
            ),
    {
        let place: usize = self.cursor_schemas.len();
        let mut projections: Vec<(String, PortType)> = Vec::new();
        projections.push(("ordinal".to_owned(), PortType::U64));
        let mut i: usize = 0;
        let ghost wide = schema::projection_views(more@);
        assert(schema::projection_views(projections@) =~= seq![("ordinal"@, PortType::U64)]
            + wide.take(0));
        while i < more.len()
            invariant
                i <= more@.len(),
                wide == schema::projection_views(more@),
                schema::projection_views(projections@) == seq![("ordinal"@, PortType::U64)]
                    + wide.take(i as int),
            decreases more.len() - i,
        {
            let ghost before = projections@;
            projections.push((more[i].0.clone(), more[i].1));
            i = i + 1;
            assert(schema::projection_views(projections@) =~= schema::projection_views(
                before,
            ).push(wide[i - 1]));
            assert(seq![("ordinal"@, PortType::U64)] + wide.take(i as int) =~= (seq![
                ("ordinal"@, PortType::U64),
            ] + wide.take(i - 1)).push(wide[i - 1]));
        }
        assert(wide.take(i as int) =~= wide);
        let extent: Option<u64> = match self.cursor_limit {
            None => x.extent,
            Some(l) => match x.extent {
                Some(e) => if e <= l {
                    Some(e)
                } else {
                    Some(l)
                },
                None => Some(l),
            },
        };
        let outputs: Option<(String, String)> = match &x.deferred {
            Some(p) => Some((p.0.clone(), p.1.clone())),
            None => None,
        };
        let known: SourceSchema = SourceSchema {
            name: cursor.to_owned(),
            projections,
            extent,
            extent_outputs: outputs,
            extent_limit: self.cursor_limit,
            cursor_kind: x.kind,
            partition_output: partition,
        };
        let ghost schemas = self.cursor_schemas@;
        let ghost shown = known@;
        self.cursor_schemas.push(known);
        assert(schema::schema_views(self.cursor_schemas@) =~= schema::schema_views(schemas).push(
            shown,
        ));
        let ghost waiting = self.deferred_extents@;
        match x.deferred {
            Some(p) => {
                let d: DeferredExtent = DeferredExtent {
                    schema_idx: place,
                    start_output: p.0,
                    end_output: p.1,
                };
                let ghost told = d@;
                self.deferred_extents.push(d);
                assert(schema::deferred_views(self.deferred_extents@) =~= schema::deferred_views(
                    waiting,
                ).push(told));
            },
            None => {},
        }
    }

    /// Lowers a cursor.
    pub fn process_cursor<T: Toolbox>(&mut self, tools: &T, decl: &CursorDecl) -> (r: Result<
        (),
        String,
    >)
        ensures
            (final(self)@, compiler::told(r)) == cursor_lowered(*tools, old(self)@, decl@),
    {
        let name: &str = decl.name.as_str();
        let sugar: Option<CursorSugar> = match tools.rewrite_cursor(name, &decl.constructor) {
            Err(e) => {
                return Err(e);
            },
            Ok(s) => s,
        };
        let (constructor, extra): (Expr, Vec<AuxBinding>) = match sugar {
            Some(s) => (s.effective_constructor, s.aux_bindings),
            None => {
                let none: Vec<AuxBinding> = Vec::new();
                assert(cursor_sugar::aux_views(none@) =~= Seq::<AuxV>::empty());
                (decl.constructor.copy(), none)
            },
        };
        let x: Extent = match self.construct_cursor(tools, name, decl.span, &constructor) {
            Err(e) => {
                return Err(e);
            },
            Ok(x) => x,
        };
        let ordinal: String = compiler::field_name(name, "ordinal");
        self.add_wired(ordinal.as_str(), Datum::U64(0), PortType::U64);
        let more: Vec<(String, PortType)> = match self.add_aux_bindings(tools, name, &extra) {
            Err(e) => {
                return Err(e);
            },
            Ok(m) => m,
        };
        self.limit_cursor(name);
        let partition: Option<String> = match self.partition_cursor(tools, name, &decl.over) {
            Err(e) => {
                return Err(e);
            },
            Ok(p) => p,
        };
        self.record_cursor(name, x, more, partition);
        Ok(())
    }
}

/// The content of the outcome of an argument of a family.
spec fn policy_told(r: Result<String, String>) -> Result<(), Seq<char>> {
    match r {
        Ok(_) => Ok(()),
        Err(e) => Err(e@),
    }
}

} // verus!
