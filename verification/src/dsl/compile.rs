//! Lowering of a program.
//!
//! The inputs come first: those that are declared, or, where none is, the
//! names that are referred to and not bound. Each gets a node and an output
//! that hand it on. Then the statements are lowered in order, and what is
//! bound becomes an output.
use crate::chars;
use crate::dsl::assembly::{
    GraphV, InputKind, KindV, NodeKind, PolydatAssembler, SlotV, WireRef, WireV,
};
use crate::dsl::ast;
use crate::dsl::ast::{
    Arg, Binding, BindingModifier, BindingV, Expr, ExprV, ExternPort, PolydatFile, Statement,
    StatementV, WireModifier,
};
use crate::dsl::binding;
use crate::dsl::compiler;
use crate::dsl::compiler::{Compiler, CompilerV, Toolbox};
use crate::dsl::cursor;
use crate::dsl::debug;
use crate::dsl::events;
use crate::dsl::events::CompileEvent;
use crate::dsl::pragmas;
use crate::dsl::pragmas::PragmaSet;
use crate::dsl::refs;
use crate::dsl::schema;
use crate::dsl::schema::{DeferredV, SchemaV, SourceSchema};
use crate::float;
use crate::float::Float64;
use crate::value;
use crate::value::{Datum, DatumV, PortType};
use vstd::prelude::*;

verus! {

// ---------------------------------------------------------------------
// Literals
// ---------------------------------------------------------------------

/// The text of an argument that is a text without a name.
pub open spec fn str_lit(arg: ast::ArgV) -> Option<Seq<char>> {
    match arg.name {
        Some(_) => None,
        None => match arg.value {
            ExprV::StringLit(s, _) => Some(s),
            _ => None,
        },
    }
}

/// The text of `arg`, if it is a text without a name.
pub fn positional_str_lit(arg: Option<&Arg>) -> (r: Option<String>)
    ensures
        match arg {
            None => r is None,
            Some(a) => ast::maybe_text(r) == str_lit(a@),
        },
{
    match arg {
        Some(Arg::Positional(Expr::StringLit(s, _))) => Some(s.clone()),
        _ => None,
    }
}

/// The value of a literal, and its type.
pub open spec fn literal_value(e: ExprV) -> Option<(DatumV, PortType)> {
    match e {
        ExprV::IntLit(v, _) => Some((DatumV::U64(v), PortType::U64)),
        ExprV::FloatLit(x, _, _) => Some((DatumV::F64(x), PortType::F64)),
        ExprV::StringLit(s, _) => Some((DatumV::Str(s), PortType::Str)),
        ExprV::Ident(n, _) => if n == "true"@ {
            Some((DatumV::Bool(true), PortType::Bool))
        } else if n == "false"@ {
            Some((DatumV::Bool(false), PortType::Bool))
        } else {
            None
        },
        _ => None,
    }
}

/// The content of a value and its type, if there is one.
pub open spec fn maybe_typed(r: Option<(Datum, PortType)>) -> Option<(DatumV, PortType)> {
    match r {
        Some((v, t)) => Some((v@, t)),
        None => None,
    }
}

/// The value of a literal, and its type.
pub fn try_fold_shared_init(expr: &Expr) -> (r: Option<(Datum, PortType)>)
    ensures
        maybe_typed(r) == literal_value(expr@),
{
    match expr {
        Expr::IntLit(v, _) => Some((Datum::U64(*v), PortType::U64)),
        Expr::FloatLit(x, _) => Some((Datum::F64(x.value), PortType::F64)),
        Expr::StringLit(s, _) => Some((Datum::Str(s.clone()), PortType::Str)),
        Expr::Ident(n, _) => if *n.as_str() == *"true" {
            Some((Datum::Bool(true), PortType::Bool))
        } else if *n.as_str() == *"false" {
            Some((Datum::Bool(false), PortType::Bool))
        } else {
            None
        },
        _ => None,
    }
}

/// The value of a shared cell with the type that is written for it. An
/// integer is widened to a double.
pub open spec fn annotated(
    name: Seq<char>,
    annotation: Option<Seq<char>>,
    v: DatumV,
    port: PortType,
) -> Result<(DatumV, PortType), Seq<char>> {
    match annotation {
        None => Ok((v, port)),
        Some(t) => match value::port_of_keyword(t) {
            None => Err(
                "shared binding '"@ + name + "': unknown type `"@ + t
                    + "` in annotation. Recognised types: u64, f64, str, bool."@,
            ),
            Some(want) => if want == port {
                Ok((v, want))
            } else if port == PortType::U64 && want == PortType::F64 {
                Ok(
                    (
                        match v {
                            DatumV::U64(n) => DatumV::F64(
                                Float64 { bits: float::int_bits(n as int) },
                            ),
                            other => other,
                        },
                        want,
                    ),
                )
            } else {
                Err(
                    "shared binding '"@ + name + ": "@ + t + "': the initializer is "@
                        + value::port_name(port)
                        + ", which doesn't match the annotated type. A cell keeps ONE type for life — make the initializer match the annotation."@,
                )
            },
        },
    }
}

/// The content of the outcome of a value and its type.
pub open spec fn typed_outcome(r: Result<(Datum, PortType), String>) -> Result<
    (DatumV, PortType),
    Seq<char>,
> {
    match r {
        Ok((v, t)) => Ok((v@, t)),
        Err(e) => Err(e@),
    }
}

/// The value of the shared cell `name` with the type that is written for
/// it.
pub fn apply_shared_type_annotation(
    name: &str,
    annotation: &Option<String>,
    init_value: Datum,
    port_type: PortType,
) -> (r: Result<(Datum, PortType), String>)
    ensures
        typed_outcome(r) == annotated(
            name@,
            ast::maybe_text(*annotation),
            init_value@,
            port_type,
        ),
{
    match annotation {
        None => Ok((init_value, port_type)),
        Some(t) => match PortType::from_keyword(t.as_str()) {
            None => {
                let mut m: String = "shared binding '".to_owned();
                m.append(name);
                m.append("': unknown type `");
                m.append(t.as_str());
                m.append("` in annotation. Recognised types: u64, f64, str, bool.");
                Err(m)
            },
            Some(want) => if want == port_type {
                Ok((init_value, want))
            } else if port_type == PortType::U64 && want == PortType::F64 {
                let widened: Datum = match init_value {
                    Datum::U64(n) => Datum::F64(Float64::from_u64(n)),
                    other => other,
                };
                Ok((widened, want))
            } else {
                let mut m: String = "shared binding '".to_owned();
                m.append(name);
                m.append(": ");
                m.append(t.as_str());
                m.append("': the initializer is ");
                m.append(port_type.name());
                m.append(
                    ", which doesn't match the annotated type. A cell keeps ONE type for life — make the initializer match the annotation.",
                );
                Err(m)
            },
        },
    }
}

/// The value of a default for a port.
pub open spec fn default_value(e: ExprV, port: PortType) -> Result<DatumV, Seq<char>> {
    match (e, port) {
        (ExprV::IntLit(v, _), PortType::U64) => Ok(DatumV::U64(v)),
        (ExprV::IntLit(v, _), PortType::F64) => Ok(
            DatumV::F64(Float64 { bits: float::int_bits(v as int) }),
        ),
        (ExprV::FloatLit(x, _, _), PortType::F64) => Ok(DatumV::F64(x)),
        (ExprV::StringLit(s, _), PortType::Str) => Ok(DatumV::Str(s)),
        (ExprV::Ident(n, _), PortType::Bool) => if n == "true"@ {
            Ok(DatumV::Bool(true))
        } else if n == "false"@ {
            Ok(DatumV::Bool(false))
        } else {
            Err(no_literal(port, e))
        },
        _ => Err(no_literal(port, e)),
    }
}

/// Why a default is refused.
pub open spec fn no_literal(port: PortType, e: ExprV) -> Seq<char> {
    "default expression must be a literal of type "@ + value::port_name(port) + "; got "@
        + debug::expr_text(e)
}

/// Why a default is refused.
fn say_no_literal(port: PortType, e: &Expr) -> (r: String)
    ensures
        r@ == no_literal(port, e@),
{
    let mut m: String = "default expression must be a literal of type ".to_owned();
    m.append(port.name());
    m.append("; got ");
    m.append(debug::show_expr(e).as_str());
    m
}

/// The value of the default `expr` for a port.
pub fn evaluate_default_expr(expr: &Expr, port_type: PortType) -> (r: Result<Datum, String>)
    ensures
        match r {
            Ok(v) => default_value(expr@, port_type) == Ok::<DatumV, Seq<char>>(v@),
            Err(e) => default_value(expr@, port_type) == Err::<DatumV, Seq<char>>(e@),
        },
{
    match (expr, port_type) {
        (Expr::IntLit(v, _), PortType::U64) => Ok(Datum::U64(*v)),
        (Expr::IntLit(v, _), PortType::F64) => Ok(Datum::F64(Float64::from_u64(*v))),
        (Expr::FloatLit(x, _), PortType::F64) => Ok(Datum::F64(x.value)),
        (Expr::StringLit(s, _), PortType::Str) => Ok(Datum::Str(s.clone())),
        (Expr::Ident(n, _), PortType::Bool) => if *n.as_str() == *"true" {
            Ok(Datum::Bool(true))
        } else if *n.as_str() == *"false" {
            Ok(Datum::Bool(false))
        } else {
            Err(say_no_literal(port_type, expr))
        },
        _ => Err(say_no_literal(port_type, expr)),
    }
}

/// One type, or another where it is not known.
pub open spec fn or_else(a: Option<PortType>, b: Option<PortType>) -> Option<PortType> {
    match a {
        Some(t) => Some(t),
        None => b,
    }
}

/// The type of an expression as far as it can be seen from its form.
pub open spec fn surface_type(e: ExprV, g: GraphV) -> Option<PortType>
    decreases e,
{
    match e {
        ExprV::StringLit(_, _) => Some(PortType::Str),
        ExprV::IntLit(_, _) => Some(PortType::U64),
        ExprV::FloatLit(_, _, _) => Some(PortType::F64),
        ExprV::Ident(n, _) => if n == "true"@ || n == "false"@ {
            Some(PortType::Bool)
        } else {
            g.input_type(n)
        },
        ExprV::BinOp(l, op, r) => if op == ast::BinOpKind::Pow {
            Some(PortType::F64)
        } else {
            or_else(surface_type(*l, g), surface_type(*r, g))
        },
        ExprV::UnaryNeg(x, _) => surface_type(*x, g),
        ExprV::UnaryBitNot(x, _) => surface_type(*x, g),
        ExprV::Cast(_, t, _) => Some(t),
        ExprV::Call(f, _, _) => if f == "printf"@ || f == "concat"@ || f == "format"@ || f
            == "str"@ {
            Some(PortType::Str)
        } else if f == "dataset_prebuffer"@ || f == "const_handle"@ {
            Some(PortType::Handle)
        } else {
            None
        },
        ExprV::ArrayLit(_, _) => None,
        ExprV::FieldAccess(_, _, _) => None,
    }
}

/// The type of `expr` as far as it can be seen from its form.
pub fn infer_auto_extern_type(expr: &Expr, g: &PolydatAssembler) -> (r: Option<PortType>)
    ensures
        r == surface_type(expr@, g@),
    decreases expr,
{
    match expr {
        Expr::StringLit(_, _) => Some(PortType::Str),
        Expr::IntLit(_, _) => Some(PortType::U64),
        Expr::FloatLit(_, _) => Some(PortType::F64),
        Expr::Ident(n, _) => if *n.as_str() == *"true" || *n.as_str() == *"false" {
            Some(PortType::Bool)
        } else {
            g.input_type(n.as_str())
        },
        Expr::BinOp(l, op, r) => {
            let lt: Option<PortType> = infer_auto_extern_type(l, g);
            let rt: Option<PortType> = infer_auto_extern_type(r, g);
            if *op == ast::BinOpKind::Pow {
                Some(PortType::F64)
            } else {
                match lt {
                    Some(t) => Some(t),
                    None => rt,
                }
            }
        },
        Expr::UnaryNeg(x, _) => infer_auto_extern_type(x, g),
        Expr::UnaryBitNot(x, _) => infer_auto_extern_type(x, g),
        Expr::Cast(_, t, _) => Some(*t),
        Expr::Call(c) => {
            let f: &str = c.func.as_str();
            if *f == *"printf" || *f == *"concat" || *f == *"format" || *f == *"str" {
                Some(PortType::Str)
            } else if *f == *"dataset_prebuffer" || *f == *"const_handle" {
                Some(PortType::Handle)
            } else {
                None
            }
        },
        Expr::ArrayLit(_, _) => None,
        Expr::FieldAccess { .. } => None,
    }
}

// ---------------------------------------------------------------------
// Inputs
// ---------------------------------------------------------------------

/// Names with those of the inputs that are declared, each once.
pub open spec fn declared(names: Seq<Seq<char>>, stmts: Seq<StatementV>) -> Seq<Seq<char>>
    decreases stmts.len(),
{
    if stmts.len() == 0 {
        names
    } else {
        let front = declared(names, stmts.drop_last());
        match stmts.last() {
            StatementV::InputDecl(n, _, _) => if front.contains(n) {
                front
            } else {
                front.push(n)
            },
            _ => front,
        }
    }
}

/// Whether an input is declared.
pub open spec fn declares_input(stmts: Seq<StatementV>) -> bool {
    exists|i: int| 0 <= i < stmts.len() && (#[trigger] stmts[i]) is InputDecl
}

/// The names that statements give a meaning.
pub open spec fn defined(stmts: Seq<StatementV>) -> Seq<Seq<char>>
    decreases stmts.len(),
{
    if stmts.len() == 0 {
        Seq::empty()
    } else {
        defined(stmts.drop_last()) + match stmts.last() {
            StatementV::Binding(b) => b.targets,
            StatementV::ModuleDef(n, _) => seq![n],
            StatementV::ExternPort(n, _, _, _) => seq![n],
            _ => Seq::<Seq<char>>::empty(),
        }
    }
}

/// The names that the bindings refer to.
pub open spec fn referenced(stmts: Seq<StatementV>) -> Seq<Seq<char>>
    decreases stmts.len(),
{
    if stmts.len() == 0 {
        Seq::empty()
    } else {
        referenced(stmts.drop_last()) + match stmts.last() {
            StatementV::Binding(b) => refs::references(b.value),
            _ => Seq::<Seq<char>>::empty(),
        }
    }
}

/// The names that are referred to and not bound, in order.
pub open spec fn inferred_inputs(stmts: Seq<StatementV>) -> Seq<Seq<char>> {
    refs::sorted(referenced(stmts).filter(|n: Seq<char>| !defined(stmts).contains(n)))
}

/// The graph with the types that are declared for its inputs.
pub open spec fn typed(g: GraphV, stmts: Seq<StatementV>) -> GraphV
    decreases stmts.len(),
{
    if stmts.len() == 0 {
        g
    } else {
        let front = typed(g, stmts.drop_last());
        match stmts.last() {
            StatementV::InputDecl(n, Some(t), _) => match value::port_of_keyword(t) {
                Some(p) => front.retyped(n, p),
                None => front,
            },
            _ => front,
        }
    }
}

/// The node that hands an input on.
pub open spec fn port_node(name: Seq<char>) -> Seq<char> {
    "__port_"@ + name
}

/// The node that hands the input `name` on.
fn port_node_name(name: &str) -> (r: String)
    ensures
        r@ == port_node(name@),
{
    let mut out: String = "__port_".to_owned();
    out.append(name);
    out
}

/// The graph with a node and an output that hand an input on.
pub open spec fn handed_on(g: GraphV, name: Seq<char>, port: PortType) -> GraphV {
    g.with_node(
        port_node(name),
        KindV::PortPassthrough(name, port),
        seq![WireV::Input(name)],
    ).with_output(name, WireV::Node(port_node(name), 0))
}

/// The graph with every input of a run handed on.
pub open spec fn exposed(g: GraphV, names: Seq<Seq<char>>) -> GraphV
    decreases names.len(),
{
    if names.len() == 0 {
        g
    } else {
        let front = exposed(g, names.drop_last());
        handed_on(front, names.last(), binding::or_integer(front.input_type(names.last())))
    }
}

/// The state with one more input that is handed on.
pub open spec fn ported(
    c: CompilerV,
    name: Seq<char>,
    default: DatumV,
    port: PortType,
    kind: InputKind,
) -> CompilerV {
    CompilerV {
        graph: handed_on(c.graph.with_input(SlotV { name, default, port, kind }), name, port),
        input_names: c.input_names.push(name),
        ..c
    }
}

// ---------------------------------------------------------------------
// Statements
// ---------------------------------------------------------------------

/// The modifiers of a shared cell.
pub open spec fn shared_only() -> BindingModifier {
    BindingModifier { constant: false, shared: true, volatile: false }
}

/// Records the modifiers of a run of names.
pub open spec fn marked(
    c: CompilerV,
    targets: Seq<Seq<char>>,
    m: BindingModifier,
) -> CompilerV
    decreases targets.len(),
{
    if targets.len() == 0 || m == BindingModifier::plain() {
        c
    } else {
        let front = marked(c, targets.drop_last(), m);
        CompilerV { graph: front.graph.with_modifier(targets.last(), m), ..front }
    }
}

/// The type of the input behind a constant.
pub open spec fn fallback_type(g: GraphV, name: Seq<char>, e: ExprV) -> PortType {
    match or_else(g.output_type(name), surface_type(e, g)) {
        Some(t) => t,
        None => PortType::Ext,
    }
}

/// Records that a run of names is constant. A name whose value refers to
/// others gets an input of its name, for the scope around to fill where the
/// constant has no value.
pub open spec fn constants(c: CompilerV, targets: Seq<Seq<char>>, e: ExprV) -> CompilerV
    decreases targets.len(),
{
    if targets.len() == 0 {
        c
    } else {
        let front = constants(c, targets.drop_last(), e);
        let name = targets.last();
        let g = front.graph.with_const(name);
        CompilerV {
            graph: if refs::references(e).len() > 0 && !g.has_input(name) {
                g.with_input(
                    SlotV {
                        name,
                        default: DatumV::Nothing,
                        port: fallback_type(g, name, e),
                        kind: InputKind::IterationExtern,
                    },
                )
            } else {
                g
            },
            ..front
        }
    }
}

/// Lowers a binding with its modifiers.
pub open spec fn binding_lowered<T: Toolbox>(t: T, c: CompilerV, b: BindingV) -> (
    CompilerV,
    Result<(), Seq<char>>,
) {
    let (c1, r) = binding::bound(t, c, b.targets, b.value);
    match r {
        Err(e) => (c1, Err(e)),
        Ok(_) => {
            let c2 = marked(c1, b.targets, b.modifier);
            if b.modifier.constant {
                (constants(c2, b.targets, b.value), Ok(()))
            } else {
                (c2, Ok(()))
            }
        },
    }
}

/// Lowers a shared cell that begins with a literal.
pub open spec fn cell(c: CompilerV, b: BindingV, v: DatumV, port: PortType) -> (
    CompilerV,
    Result<(), Seq<char>>,
) {
    let name = b.targets[0];
    match annotated(name, b.annotation, v, port) {
        Err(e) => (c, Err(e)),
        Ok((v2, port2)) => {
            let c1 = ported(c, name, v2, port2, InputKind::ExternalWrite);
            (CompilerV { graph: c1.graph.with_modifier(name, shared_only()), ..c1 }, Ok(()))
        },
    }
}

/// Lowers a binding, a shared cell among them. A cell has one name and
/// begins with a literal.
pub open spec fn bound_statement<T: Toolbox>(t: T, c: CompilerV, b: BindingV) -> (
    CompilerV,
    Result<(), Seq<char>>,
) {
    if b.modifier != shared_only() {
        binding_lowered(t, c, b)
    } else if b.targets.len() != 1 {
        (
            c,
            Err(
                "shared binding must be single-target, not tuple unpack ("@ + chars::joined(
                    b.targets,
                    ", "@,
                ) + "). Declare each target separately if a shared cell is intended."@,
            ),
        )
    } else {
        match literal_value(b.value) {
            Some((v, port)) => cell(c, b, v, port),
            None => (
                c,
                Err(
                    "shared binding '"@ + b.targets[0]
                        + "' requires a literal initial value (number, string, true/false). Computed and cycle-dependent expressions don't have a well-defined single init for the shared cell. See SRD-16 §\"Non-literal `shared` initializers\"."@,
                ),
            ),
        }
    }
}

/// Lowers the declaration of a value from outside. With a default it is
/// written at any time, without one by the scope around.
pub open spec fn port_lowered(
    c: CompilerV,
    name: Seq<char>,
    typ: Seq<char>,
    default: Option<ExprV>,
) -> (CompilerV, Result<(), Seq<char>>) {
    match value::port_of_keyword(typ) {
        None => (
            c,
            Err(
                "extern '"@ + name + "': unknown polydat type keyword '"@ + typ
                    + "'. Canonical keywords are emitted by PortType::to_keyword (one per PortType variant)."@,
            ),
        ),
        Some(port) => match default {
            None => (
                ported(c, name, DatumV::Nothing, port, InputKind::IterationExtern),
                Ok(()),
            ),
            Some(e) => match default_value(e, port) {
                Err(m) => (c, Err("extern '"@ + name + "' default: "@ + m)),
                Ok(v) => (ported(c, name, v, port, InputKind::ExternalWrite), Ok(())),
            },
        },
    }
}

/// Lowers a statement.
pub open spec fn statement_lowered<T: Toolbox>(t: T, c: CompilerV, s: StatementV) -> (
    CompilerV,
    Result<(), Seq<char>>,
) {
    match s {
        StatementV::Binding(b) => bound_statement(t, c, b),
        StatementV::ExternPort(name, typ, default, _) => port_lowered(c, name, typ, default),
        StatementV::Cursor(d) => cursor::cursor_lowered(t, c, d),
        _ => (c, Ok(())),
    }
}

/// Lowers a run of statements, up to the first that fails.
pub open spec fn statements_lowered<T: Toolbox>(
    t: T,
    c: CompilerV,
    stmts: Seq<StatementV>,
) -> (CompilerV, Result<(), Seq<char>>)
    decreases stmts.len(),
{
    if stmts.len() == 0 {
        (c, Ok(()))
    } else {
        let (c1, r) = statements_lowered(t, c, stmts.drop_last());
        match r {
            Err(e) => (c1, Err(e)),
            Ok(_) => statement_lowered(t, c1, stmts.last()),
        }
    }
}

/// The graph with the nodes of a run of names as outputs.
pub open spec fn shown(g: GraphV, names: Seq<Seq<char>>) -> GraphV {
    GraphV {
        outputs: g.outputs + Seq::new(
            names.len(),
            |i: int| (names[i], WireV::Node(names[i], 0)),
        ),
        ..g
    }
}

/// The graph with where its source comes from.
pub open spec fn placed_source(c: CompilerV) -> CompilerV {
    CompilerV { graph: GraphV { source: c.source, context: c.label, ..c.graph }, ..c }
}

/// What is wrong with a program without inputs in strict mode.
pub open spec fn no_input() -> Seq<char> {
    "strict mode: no `input` declaration — add `input <name>: <type>` (or the tuple form `input (a: u64, b: f64)`) to declare graph inputs explicitly"@
}

/// Every binding binds a name.
pub open spec fn binds_names(stmts: Seq<StatementV>) -> bool {
    forall|i: int|
        0 <= i < stmts.len() ==> ((#[trigger] stmts[i]) matches StatementV::Binding(b)
            ==> b.targets.len() > 0)
}

/// Lowers every statement of a program, onto the inputs that it declares
/// or, where it declares none, that its bindings need. Its pragmas hold for
/// every wire.
pub open spec fn populated<T: Toolbox>(t: T, c: CompilerV, stmts: Seq<StatementV>) -> (
    CompilerV,
    Result<(), Seq<char>>,
) {
    let explicit = declares_input(stmts);
    let names = declared(c.input_names, stmts);
    if !explicit && c.strict {
        (CompilerV { input_names: names, ..c }, Err(no_input()))
    } else {
        let names = if explicit {
            names
        } else {
            inferred_inputs(stmts)
        };
        let chain = if c.pragmas[0].len() == 0 {
            seq![pragmas::pragmas_of(stmts)]
        } else {
            c.pragmas
        };
        let g = typed(GraphV::of_inputs(names), stmts);
        let g = GraphV {
            strict_types: pragmas::types_strict(chain),
            strict_values: pragmas::values_strict(chain),
            ..g
        };
        let start = CompilerV {
            input_names: names,
            pragmas: chain,
            graph: exposed(g, names),
            ..c
        };
        statements_lowered(t, start, stmts)
    }
}

/// The state with a run of names as outputs, and where its source comes
/// from.
pub open spec fn ended(c: CompilerV, names: Seq<Seq<char>>) -> CompilerV {
    placed_source(CompilerV { graph: shown(c.graph, names), ..c })
}

/// Lowers a program as a whole: every name that is bound is an output.
pub open spec fn compiled<T: Toolbox>(t: T, c: CompilerV, stmts: Seq<StatementV>) -> (
    CompilerV,
    Result<(), Seq<char>>,
) {
    let (c1, r) = populated(t, c, stmts);
    match r {
        Err(e) => (c1, Err(e)),
        Ok(_) => (ended(c1, c1.all_names), Ok(())),
    }
}

/// The volatile names of a program with a run of names, each once.
pub open spec fn with_volatile(names: Seq<Seq<char>>, stmts: Seq<StatementV>) -> Seq<Seq<char>>
    decreases stmts.len(),
{
    if stmts.len() == 0 {
        names
    } else {
        let front = with_volatile(names, stmts.drop_last());
        match stmts.last() {
            StatementV::Binding(b) => if b.modifier.volatile {
                refs::merged(front, b.targets)
            } else {
                front
            },
            _ => front,
        }
    }
}

/// The constant names of a program with a run of names, each once.
pub open spec fn with_constants(names: Seq<Seq<char>>, stmts: Seq<StatementV>) -> Seq<Seq<char>>
    decreases stmts.len(),
{
    if stmts.len() == 0 {
        names
    } else {
        let front = with_constants(names, stmts.drop_last());
        match stmts.last() {
            StatementV::Binding(b) => if b.modifier.constant {
                refs::merged(front, b.targets)
            } else {
                front
            },
            _ => front,
        }
    }
}

/// The outputs that give the bounds of the cursors that wait for them.
pub open spec fn waiting(d: Seq<DeferredV>) -> Seq<Seq<char>>
    decreases d.len(),
{
    if d.len() == 0 {
        Seq::empty()
    } else {
        waiting(d.drop_last()).push(d.last().start).push(d.last().end)
    }
}

/// The names of a run that are bound.
pub open spec fn known(all: Seq<Seq<char>>, names: Seq<Seq<char>>) -> Seq<Seq<char>> {
    names.filter(|n: Seq<char>| all.contains(n))
}

/// The names that become outputs where some are asked for: those of them
/// that are bound, with the volatile ones, and the bounds of the cursors.
pub open spec fn asked_outputs(
    c: CompilerV,
    required: Seq<Seq<char>>,
    stmts: Seq<StatementV>,
) -> Seq<Seq<char>> {
    known(c.all_names, with_volatile(required, stmts)) + known(c.all_names, waiting(c.deferred))
        + c.all_names.filter(|n: Seq<char>| chars::begins(n, "__cursor_extent_"@))
}

/// Lowers a program with the outputs that are asked for; as a whole where
/// nothing is said.
pub open spec fn compiled_filtered<T: Toolbox>(
    t: T,
    c: CompilerV,
    stmts: Seq<StatementV>,
    required: Option<Seq<Seq<char>>>,
) -> (CompilerV, Result<(), Seq<char>>) {
    match required {
        None => compiled(t, c, stmts),
        Some(req) => {
            let (c1, r) = populated(t, c, stmts);
            match r {
                Err(e) => (c1, Err(e)),
                Ok(_) => (ended(c1, asked_outputs(c1, req, stmts)), Ok(())),
            }
        },
    }
}

// ---------------------------------------------------------------------
// Deferred extents
// ---------------------------------------------------------------------

/// The value of a name in a run of values, the first.
pub open spec fn value_of(values: Seq<(Seq<char>, u64)>, name: Seq<char>) -> Option<u64>
    decreases values.len(),
{
    if values.len() == 0 {
        None
    } else if values[0].0 == name {
        Some(values[0].1)
    } else {
        value_of(values.drop_first(), name)
    }
}

/// The cursors with the extents that are known from the values of outputs.
pub open spec fn resolved_extents(
    schemas: Seq<SchemaV>,
    deferred: Seq<DeferredV>,
    limit: Option<u64>,
    values: Seq<(Seq<char>, u64)>,
) -> Seq<SchemaV>
    decreases deferred.len(),
{
    if deferred.len() == 0 {
        schemas
    } else {
        let front = resolved_extents(schemas, deferred.drop_last(), limit, values);
        let d = deferred.last();
        match (value_of(values, d.start), value_of(values, d.end)) {
            (Some(s), Some(e)) => if d.place < front.len() {
                front.update(
                    d.place as int,
                    SchemaV {
                        extent: cursor::clamped(limit, Some(cursor::steps(s, e))),
                        ..front[d.place as int]
                    },
                )
            } else {
                front
            },
            _ => front,
        }
    }
}

/// The contents of a run of values by name.
pub open spec fn value_views(s: Seq<(String, u64)>) -> Seq<(Seq<char>, u64)> {
    Seq::new(s.len(), |i: int| (s[i].0@, s[i].1))
}

// ---------------------------------------------------------------------
// Lowering
// ---------------------------------------------------------------------

/// A state before anything is lowered.
pub open spec fn fresh(strict: bool) -> CompilerV {
    CompilerV {
        input_names: Seq::empty(),
        all_names: Seq::empty(),
        handed: Seq::empty(),
        current: None,
        graph: GraphV::of_inputs(Seq::empty()),
        schemas: Seq::empty(),
        deferred: Seq::empty(),
        limit: None,
        strict,
        source: Seq::empty(),
        label: "(polydat)"@,
        pragmas: seq![Seq::empty()],
    }
}

/// A run of statements that fails in the middle fails so as a whole.
proof fn lemma_statements_stop<T: Toolbox>(
    t: T,
    c: CompilerV,
    stmts: Seq<StatementV>,
    k: int,
)
    requires
        0 <= k <= stmts.len(),
        statements_lowered(t, c, stmts.take(k)).1 is Err,
    ensures
        statements_lowered(t, c, stmts) == statements_lowered(t, c, stmts.take(k)),
    decreases stmts.len() - k,
{
    if k == stmts.len() {
        assert(stmts.take(k) =~= stmts);
    } else {
        assert(stmts.take(k + 1).drop_last() =~= stmts.take(k));
        lemma_statements_stop(t, c, stmts, k + 1);
    }
}

/// Adds the names of `more` to `names`, each once.
pub fn merge_names(names: &mut Vec<String>, more: &Vec<String>)
    ensures
        chars::texts(final(names)@) == refs::merged(
            chars::texts(old(names)@),
            chars::texts(more@),
        ),
{
    let ghost start = chars::texts(names@);
    let ghost all = chars::texts(more@);
    let mut i: usize = 0;
    assert(all.take(0) =~= Seq::<Seq<char>>::empty());
    while i < more.len()
        invariant
            i <= more@.len(),
            all == chars::texts(more@),
            chars::texts(names@) == refs::merged(start, all.take(i as int)),
        decreases more.len() - i,
    {
        assert(all.take(i + 1).drop_last() =~= all.take(i as int));
        assert(all.take(i + 1).last() == more@[i as int]@);
        if !compiler::listed(names, more[i].as_str()) {
            compiler::add_name(names, more[i].as_str());
        }
        i = i + 1;
    }
    assert(all.take(i as int) =~= all);
}

/// The names of `names` that are in `all`.
fn pick_known(all: &Vec<String>, names: &Vec<String>) -> (r: Vec<String>)
    ensures
        chars::texts(r@) == known(chars::texts(all@), chars::texts(names@)),
{
    let ghost shown = chars::texts(names@);
    let ghost keep = |n: Seq<char>| chars::texts(all@).contains(n);
    let mut out: Vec<String> = Vec::new();
    let mut i: usize = 0;
    proof {
        reveal(Seq::filter);
        assert(chars::texts(out@) =~= shown.take(0).filter(keep));
    }
    while i < names.len()
        invariant
            i <= names@.len(),
            shown == chars::texts(names@),
            keep == |n: Seq<char>| chars::texts(all@).contains(n),
            chars::texts(out@) == shown.take(i as int).filter(keep),
        decreases names.len() - i,
    {
        proof {
            reveal(Seq::filter);
            assert(shown.take(i + 1).drop_last() =~= shown.take(i as int));
            assert(shown.take(i + 1).last() == names@[i as int]@);
        }
        if compiler::listed(all, names[i].as_str()) {
            compiler::add_name(&mut out, names[i].as_str());
        }
        i = i + 1;
    }
    assert(shown.take(i as int) =~= shown);
    out
}

/// The names of `all` that give a bound of a cursor.
fn pick_bounds(all: &Vec<String>) -> (r: Vec<String>)
    ensures
        chars::texts(r@) == chars::texts(all@).filter(
            |n: Seq<char>| chars::begins(n, "__cursor_extent_"@),
        ),
{
    let ghost shown = chars::texts(all@);
    let ghost keep = |n: Seq<char>| chars::begins(n, "__cursor_extent_"@);
    let mut out: Vec<String> = Vec::new();
    let mut i: usize = 0;
    proof {
        reveal(Seq::filter);
        assert(chars::texts(out@) =~= shown.take(0).filter(keep));
    }
    while i < all.len()
        invariant
            i <= all@.len(),
            shown == chars::texts(all@),
            keep == |n: Seq<char>| chars::begins(n, "__cursor_extent_"@),
            chars::texts(out@) == shown.take(i as int).filter(keep),
        decreases all.len() - i,
    {
        proof {
            reveal(Seq::filter);
            assert(shown.take(i + 1).drop_last() =~= shown.take(i as int));
            assert(shown.take(i + 1).last() == all@[i as int]@);
        }
        if chars::begins_with(all[i].as_str(), "__cursor_extent_") {
            compiler::add_name(&mut out, all[i].as_str());
        }
        i = i + 1;
    }
    assert(shown.take(i as int) =~= shown);
    out
}

/// Adds the names of `more` to `names`.
fn append_names(names: &mut Vec<String>, more: &Vec<String>)
    ensures
        chars::texts(final(names)@) == chars::texts(old(names)@) + chars::texts(more@),
{
    let ghost start = chars::texts(names@);
    let ghost all = chars::texts(more@);
    let mut i: usize = 0;
    assert(start + all.take(0) =~= start);
    while i < more.len()
        invariant
            i <= more@.len(),
            all == chars::texts(more@),
            chars::texts(names@) == start + all.take(i as int),
        decreases more.len() - i,
    {
        compiler::add_name(names, more[i].as_str());
        i = i + 1;
        assert((start + all.take(i - 1)).push(all[i - 1]) =~= start + all.take(i as int));
    }
    assert(all.take(i as int) =~= all);
}

/// The names that are referred to and not bound, in order.
fn infer_inputs(file: &PolydatFile) -> (r: Vec<String>)
    ensures
        chars::texts(r@) == inferred_inputs(file@),
{
    let ghost all = file@;
    let mut bound_here: Vec<String> = Vec::new();
    let mut used: Vec<String> = Vec::new();
    let mut i: usize = 0;
    assert(all.take(0) =~= Seq::<StatementV>::empty());
    assert(chars::texts(bound_here@) =~= Seq::<Seq<char>>::empty());
    assert(chars::texts(used@) =~= Seq::<Seq<char>>::empty());
    while i < file.statements.len()
        invariant
            i <= file.statements@.len(),
            all == ast::statement_views(file.statements@),
            chars::texts(bound_here@) == defined(all.take(i as int)),
            chars::texts(used@) == referenced(all.take(i as int)),
        decreases file.statements.len() - i,
    {
        proof {
            assert(all.take(i + 1).drop_last() =~= all.take(i as int));
            assert(all.take(i + 1).last() == file.statements@[i as int]@);
            assert(defined(all.take(i as int)) + Seq::<Seq<char>>::empty() =~= defined(
                all.take(i as int),
            ));
            assert(referenced(all.take(i as int)) + Seq::<Seq<char>>::empty() =~= referenced(
                all.take(i as int),
            ));
        }
        let ghost before = chars::texts(bound_here@);
        match &file.statements[i] {
            Statement::Binding(b) => {
                append_names(&mut bound_here, &b.targets);
                refs::gather(&b.value, &mut used);
            },
            Statement::ModuleDef(m) => {
                compiler::add_name(&mut bound_here, m.name.as_str());
                assert(before.push(m.name@) =~= before + seq![m.name@]);
            },
            Statement::ExternPort(p) => {
                compiler::add_name(&mut bound_here, p.name.as_str());
                assert(before.push(p.name@) =~= before + seq![p.name@]);
            },
            _ => {},
        }
        i = i + 1;
    }
    assert(all.take(i as int) =~= all);
    let free: Vec<String> = drop_known(&bound_here, &used);
    refs::sort_names(&free)
}

/// The names of `names` that are not in `all`.
fn drop_known(all: &Vec<String>, names: &Vec<String>) -> (r: Vec<String>)
    ensures
        chars::texts(r@) == chars::texts(names@).filter(
            |n: Seq<char>| !chars::texts(all@).contains(n),
        ),
{
    let ghost shown = chars::texts(names@);
    let ghost keep = |n: Seq<char>| !chars::texts(all@).contains(n);
    let mut out: Vec<String> = Vec::new();
    let mut i: usize = 0;
    proof {
        reveal(Seq::filter);
        assert(chars::texts(out@) =~= shown.take(0).filter(keep));
    }
    while i < names.len()
        invariant
            i <= names@.len(),
            shown == chars::texts(names@),
            keep == |n: Seq<char>| !chars::texts(all@).contains(n),
            chars::texts(out@) == shown.take(i as int).filter(keep),
        decreases names.len() - i,
    {
        proof {
            reveal(Seq::filter);
            assert(shown.take(i + 1).drop_last() =~= shown.take(i as int));
            assert(shown.take(i + 1).last() == names@[i as int]@);
        }
        if !compiler::listed(all, names[i].as_str()) {
            compiler::add_name(&mut out, names[i].as_str());
        }
        i = i + 1;
    }
    assert(shown.take(i as int) =~= shown);
    out
}

/// A graph of the inputs `names`, with the types that are declared.
fn start_graph(names: &Vec<String>, file: &PolydatFile) -> (r: PolydatAssembler)
    ensures
        r@ == typed(GraphV::of_inputs(chars::texts(names@)), file@),
{
    let ghost all = file@;
    let mut g: PolydatAssembler = PolydatAssembler::new(names);
    let ghost start = g@;
    let mut i: usize = 0;
    assert(all.take(0) =~= Seq::<StatementV>::empty());
    while i < file.statements.len()
        invariant
            i <= file.statements@.len(),
            all == ast::statement_views(file.statements@),
            g@ == typed(start, all.take(i as int)),
        decreases file.statements.len() - i,
    {
        assert(all.take(i + 1).drop_last() =~= all.take(i as int));
        assert(all.take(i + 1).last() == file.statements@[i as int]@);
        match &file.statements[i] {
            Statement::InputDecl(d) => match &d.ty {
                Some(t) => match PortType::from_keyword(t.as_str()) {
                    Some(p) => {
                        g.set_input_type(d.name.as_str(), p);
                    },
                    None => {},
                },
                None => {},
            },
            _ => {},
        }
        i = i + 1;
    }
    assert(all.take(i as int) =~= all);
    g
}

/// Hands the input `name` on.
fn hand_on(g: &mut PolydatAssembler, name: &str, port: PortType)
    ensures
        final(g)@ == handed_on(old(g)@, name@, port),
{
    let node: String = port_node_name(name);
    g.add_node(
        node.as_str(),
        NodeKind::PortPassthrough(name.to_owned(), port),
        compiler::one_wire(WireRef::input(name)),
    );
    g.add_output(name, WireRef::node(node.as_str()));
}

/// Hands every input of `names` on.
fn expose_inputs(g: &mut PolydatAssembler, names: &Vec<String>)
    ensures
        final(g)@ == exposed(old(g)@, chars::texts(names@)),
{
    let ghost all = chars::texts(names@);
    let ghost start = g@;
    let mut i: usize = 0;
    assert(all.take(0) =~= Seq::<Seq<char>>::empty());
    while i < names.len()
        invariant
            i <= names@.len(),
            all == chars::texts(names@),
            g@ == exposed(start, all.take(i as int)),
        decreases names.len() - i,
    {
        assert(all.take(i + 1).drop_last() =~= all.take(i as int));
        assert(all.take(i + 1).last() == names@[i as int]@);
        let port: PortType = match g.input_type(names[i].as_str()) {
            Some(t) => t,
            None => PortType::U64,
        };
        hand_on(g, names[i].as_str(), port);
        i = i + 1;
    }
    assert(all.take(i as int) =~= all);
}

/// Makes the nodes of `names` outputs.
fn show_outputs(g: &mut PolydatAssembler, names: &Vec<String>)
    ensures
        final(g)@ == shown(old(g)@, chars::texts(names@)),
{
    let ghost all = chars::texts(names@);
    let ghost start = g@;
    let mut i: usize = 0;
    assert(g@ =~= shown(start, all.take(0)));
    while i < names.len()
        invariant
            i <= names@.len(),
            all == chars::texts(names@),
            g@ == shown(start, all.take(i as int)),
        decreases names.len() - i,
    {
        g.add_output(names[i].as_str(), WireRef::node(names[i].as_str()));
        i = i + 1;
        assert(g@ =~= shown(start, all.take(i as int)));
    }
    assert(all.take(i as int) =~= all);
}

impl Compiler {
    /// A state before anything is lowered.
    pub fn new(strict: bool) -> (r: Compiler)
        ensures
            r@ == fresh(strict),
    {
        let none: Vec<String> = Vec::new();
        assert(chars::texts(none@) =~= Seq::<Seq<char>>::empty());
        let r: Compiler = Compiler {
            input_names: Vec::new(),
            all_names: Vec::new(),
            handed: Vec::new(),
            current_binding: None,
            graph: PolydatAssembler::new(&none),
            cursor_schemas: Vec::new(),
            deferred_extents: Vec::new(),
            cursor_limit: None,
            strict,
            source_text: String::new(),
            context_label: "(polydat)".to_owned(),
            pragmas: PragmaSet::empty(),
        };
        assert(r@ =~= fresh(strict));
        r
    }

    /// Adds the inputs that are declared, and says whether one is.
    fn declare_inputs(&mut self, file: &PolydatFile) -> (r: bool)
        ensures
            final(self)@ == (CompilerV {
                input_names: declared(old(self)@.input_names, file@),
                ..old(self)@
            }),
            r == declares_input(file@),
    {
        let ghost all = file@;
        let ghost start = self@;
        let mut explicit: bool = false;
        let mut i: usize = 0;
        assert(all.take(0) =~= Seq::<StatementV>::empty());
        while i < file.statements.len()
            invariant
                i <= file.statements@.len(),
                all == ast::statement_views(file.statements@),
                start == old(self)@,
                self@ == (CompilerV {
                    input_names: declared(start.input_names, all.take(i as int)),
                    ..start
                }),
                explicit == (exists|k: int| 0 <= k < i && (#[trigger] all[k]) is InputDecl),
            decreases file.statements.len() - i,
        {
            assert(all.take(i + 1).drop_last() =~= all.take(i as int));
            assert(all.take(i + 1).last() == file.statements@[i as int]@);
            match &file.statements[i] {
                Statement::InputDecl(d) => {
                    if !compiler::listed(&self.input_names, d.name.as_str()) {
                        compiler::add_name(&mut self.input_names, d.name.as_str());
                    }
                    explicit = true;
                    assert(all[i as int] is InputDecl);
                },
                _ => {
                    assert(!(all[i as int] is InputDecl));
                },
            }
            i = i + 1;
        }
        assert(all.take(i as int) =~= all);
        explicit
    }

    /// Adds an input that is handed on.
    fn add_port(&mut self, name: &str, default: Datum, port: PortType, kind: InputKind)
        ensures
            final(self)@ == ported(old(self)@, name@, default@, port, kind),
    {
        self.graph.add_input(name, default, port, kind);
        compiler::add_name(&mut self.input_names, name);
        hand_on(&mut self.graph, name, port);
    }

    /// Records the modifiers of `targets`.
    fn mark(&mut self, targets: &Vec<String>, m: BindingModifier)
        ensures
            final(self)@ == marked(old(self)@, chars::texts(targets@), m),
    {
        if m == BindingModifier::none() {
            return;
        }
        let ghost all = chars::texts(targets@);
        let ghost start = self@;
        let mut i: usize = 0;
        while i < targets.len()
            invariant
                i <= targets@.len(),
                all == chars::texts(targets@),
                m != BindingModifier::plain(),
                self@ == marked(start, all.take(i as int), m),
            decreases targets.len() - i,
        {
            assert(all.take(i + 1).drop_last() =~= all.take(i as int));
            assert(all.take(i + 1).last() == targets@[i as int]@);
            self.graph.set_output_modifier(targets[i].as_str(), m);
            i = i + 1;
        }
        assert(all.take(i as int) =~= all);
    }

    /// Records that `targets` are constant.
    fn mark_constants(&mut self, targets: &Vec<String>, expr: &Expr)
        ensures
            final(self)@ == constants(old(self)@, chars::texts(targets@), expr@),
    {
        let ghost all = chars::texts(targets@);
        let ghost start = self@;
        let refers: bool = refs::has_references(expr);
        let mut i: usize = 0;
        assert(all.take(0) =~= Seq::<Seq<char>>::empty());
        while i < targets.len()
            invariant
                i <= targets@.len(),
                all == chars::texts(targets@),
                refers == (refs::references(expr@).len() > 0),
                self@ == constants(start, all.take(i as int), expr@),
            decreases targets.len() - i,
        {
            assert(all.take(i + 1).drop_last() =~= all.take(i as int));
            assert(all.take(i + 1).last() == targets@[i as int]@);
            let name: &str = targets[i].as_str();
            self.graph.mark_const_output(name);
            if refers && self.graph.input_type(name).is_none() {
                let port: PortType = match self.graph.output_type(name) {
                    Some(t) => t,
                    None => match infer_auto_extern_type(expr, &self.graph) {
                        Some(t) => t,
                        None => PortType::Ext,
                    },
                };
                self.graph.add_input(name, Datum::Nothing, port, InputKind::IterationExtern);
            }
            i = i + 1;
        }
        assert(all.take(i as int) =~= all);
    }

    /// Lowers a binding with its modifiers.
    fn lower_binding<T: Toolbox>(&mut self, tools: &T, b: &Binding) -> (r: Result<(), String>)
        requires
            b@.targets.len() > 0,
        ensures
            (final(self)@, compiler::told(r)) == binding_lowered(*tools, old(self)@, b@),
    {
        match self.compile_binding(tools, &b.targets, &b.value) {
            Err(e) => Err(e),
            Ok(_) => {
                self.mark(&b.targets, b.modifier);
                if b.modifier.is_const() {
                    self.mark_constants(&b.targets, &b.value);
                }
                Ok(())
            },
        }
    }

    /// Lowers a shared cell that begins with a literal.
    fn lower_cell(&mut self, b: &Binding, init: Datum, port: PortType) -> (r: Result<(), String>)
        requires
            b@.targets.len() == 1,
        ensures
            (final(self)@, compiler::told(r)) == cell(old(self)@, b@, init@, port),
    {
        let name: &str = b.targets[0].as_str();
        assert(b@.targets[0] == name@);
        match apply_shared_type_annotation(name, &b.type_annotation, init, port) {
            Err(e) => Err(e),
            Ok((v, p)) => {
                self.add_port(name, v, p, InputKind::ExternalWrite);
                let only: BindingModifier = BindingModifier::only(WireModifier::Shared);
                self.graph.set_output_modifier(name, only);
                Ok(())
            },
        }
    }

    /// Lowers a binding, a shared cell among them.
    fn lower_bound<T: Toolbox>(&mut self, tools: &T, b: &Binding) -> (r: Result<(), String>)
        requires
            b@.targets.len() > 0,
        ensures
            (final(self)@, compiler::told(r)) == bound_statement(*tools, old(self)@, b@),
    {
        if b.modifier != BindingModifier::only(WireModifier::Shared) {
            return self.lower_binding(tools, b);
        }
        if b.targets.len() != 1 {
            let mut m: String =
                "shared binding must be single-target, not tuple unpack (".to_owned();
            m.append(chars::join(&b.targets, ", ").as_str());
            m.append("). Declare each target separately if a shared cell is intended.");
            return Err(m);
        }
        match try_fold_shared_init(&b.value) {
            Some((v, port)) => self.lower_cell(b, v, port),
            None => {
                let mut m: String = "shared binding '".to_owned();
                m.append(b.targets[0].as_str());
                m.append(
                    "' requires a literal initial value (number, string, true/false). Computed and cycle-dependent expressions don't have a well-defined single init for the shared cell. See SRD-16 §\"Non-literal `shared` initializers\".",
                );
                Err(m)
            },
        }
    }

    /// Lowers the declaration of a value from outside.
    fn lower_port(&mut self, p: &ExternPort) -> (r: Result<(), String>)
        ensures
            (final(self)@, compiler::told(r)) == port_lowered(
                old(self)@,
                p.name@,
                p.typ@,
                ast::maybe_expr(p.default),
            ),
    {
        let name: &str = p.name.as_str();
        match PortType::from_keyword(p.typ.as_str()) {
            None => {
                let mut m: String = "extern '".to_owned();
                m.append(name);
                m.append("': unknown polydat type keyword '");
                m.append(p.typ.as_str());
                m.append(
                    "'. Canonical keywords are emitted by PortType::to_keyword (one per PortType variant).",
                );
                Err(m)
            },
            Some(port) => match &p.default {
                None => {
                    self.add_port(name, Datum::Nothing, port, InputKind::IterationExtern);
                    Ok(())
                },
                Some(e) => match evaluate_default_expr(e, port) {
                    Err(why) => {
                        let mut m: String = "extern '".to_owned();
                        m.append(name);
                        m.append("' default: ");
                        m.append(why.as_str());
                        Err(m)
                    },
                    Ok(v) => {
                        self.add_port(name, v, port, InputKind::ExternalWrite);
                        Ok(())
                    },
                },
            },
        }
    }

    /// Lowers the statements of a program, up to the first that fails.
    fn lower_statements<T: Toolbox>(&mut self, tools: &T, file: &PolydatFile) -> (r: Result<
        (),
        String,
    >)
        requires
            binds_names(file@),
        ensures
            (final(self)@, compiler::told(r)) == statements_lowered(
                *tools,
                old(self)@,
                file@,
            ),
    {
        let ghost all = file@;
        let ghost start = self@;
        let mut i: usize = 0;
        assert(all.take(0) =~= Seq::<StatementV>::empty());
        while i < file.statements.len()
            invariant
                i <= file.statements@.len(),
                all == ast::statement_views(file.statements@),
                binds_names(all),
                start == old(self)@,
                statements_lowered(*tools, start, all.take(i as int)) == (
                    self@,
                    Ok::<(), Seq<char>>(()),
                ),
            decreases file.statements.len() - i,
        {
            proof {
                assert(all.take(i + 1).drop_last() =~= all.take(i as int));
                assert(all.take(i + 1).last() == file.statements@[i as int]@);
                assert(all[i as int] == file.statements@[i as int]@);
            }
            let done: Result<(), String> = match &file.statements[i] {
                Statement::Binding(b) => self.lower_bound(tools, b),
                Statement::ExternPort(p) => self.lower_port(p),
                Statement::Cursor(d) => self.process_cursor(tools, d),
                _ => Ok(()),
            };
            match done {
                Ok(_) => {},
                Err(e) => {
                    proof {
                        lemma_statements_stop(*tools, start, all, i + 1);
                    }
                    return Err(e);
                },
            }
            i = i + 1;
        }
        assert(all.take(i as int) =~= all);
        Ok(())
    }

    /// Makes `names` outputs and records where the source comes from.
    fn finish(&mut self, names: &Vec<String>)
        ensures
            final(self)@ == ended(old(self)@, chars::texts(names@)),
    {
        show_outputs(&mut self.graph, names);
        self.graph.set_context(self.source_text.as_str(), self.context_label.as_str());
    }

    /// Lowers every statement of a program onto its inputs.
    fn populate<T: Toolbox>(&mut self, tools: &T, file: &PolydatFile) -> (r: Result<(), String>)
        requires
            binds_names(file@),
        ensures
            (final(self)@, compiler::told(r)) == populated(*tools, old(self)@, file@),
    {
        let explicit: bool = self.declare_inputs(file);
        if !explicit && self.strict {
            return Err(
                "strict mode: no `input` declaration — add `input <name>: <type>` (or the tuple form `input (a: u64, b: f64)`) to declare graph inputs explicitly".to_owned(),
            );
        }
        if !explicit {
            self.input_names = infer_inputs(file);
        }
        assert(self.pragmas@[0] == pragmas::pragma_views(self.pragmas.entries@));
        if self.pragmas.entries.len() == 0 {
            self.pragmas = pragmas::collect_from_ast(file);
        }
        let names: Vec<String> = chars::copy_strings(&self.input_names);
        let mut g: PolydatAssembler = start_graph(&names, file);
        g.set_strict_wires(self.pragmas.strict_types(), self.pragmas.strict_values());
        expose_inputs(&mut g, &names);
        self.graph = g;
        self.lower_statements(tools, file)
    }

    /// Lowers a program as a whole.
    pub fn compile<T: Toolbox>(&mut self, tools: &T, file: &PolydatFile) -> (r: Result<
        (),
        String,
    >)
        requires
            binds_names(file@),
        ensures
            (final(self)@, compiler::told(r)) == compiled(*tools, old(self)@, file@),
    {
        match self.populate(tools, file) {
            Err(e) => Err(e),
            Ok(_) => {
                let outputs: Vec<String> = chars::copy_strings(&self.all_names);
                self.finish(&outputs);
                Ok(())
            },
        }
    }

    /// Fills the graph with all the nodes and the wiring of a program: the
    /// graph that lowering the program as a whole gives.
    pub fn build_assembler<T: Toolbox>(&mut self, tools: &T, file: &PolydatFile) -> (r: Result<
        (),
        String,
    >)
        requires
            binds_names(file@),
        ensures
            (final(self)@, compiler::told(r)) == compiled(*tools, old(self)@, file@),
    {
        self.compile(tools, file)
    }

    /// The names that become outputs where `required` are asked for.
    fn choose_outputs(&self, required: &Vec<String>, file: &PolydatFile) -> (r: Vec<String>)
        ensures
            chars::texts(r@) == asked_outputs(self@, chars::texts(required@), file@),
    {
        let mut wanted: Vec<String> = chars::copy_strings(required);
        add_volatile(&mut wanted, file);
        let mut out: Vec<String> = pick_known(&self.all_names, &wanted);
        let bounds: Vec<String> = self.waiting_outputs();
        let known_bounds: Vec<String> = pick_known(&self.all_names, &bounds);
        append_names(&mut out, &known_bounds);
        let kept: Vec<String> = pick_bounds(&self.all_names);
        append_names(&mut out, &kept);
        out
    }

    /// The outputs that give the bounds of the cursors that wait for them.
    fn waiting_outputs(&self) -> (r: Vec<String>)
        ensures
            chars::texts(r@) == waiting(self@.deferred),
    {
        let ghost all = self@.deferred;
        let mut out: Vec<String> = Vec::new();
        let mut i: usize = 0;
        assert(all.take(0) =~= Seq::<DeferredV>::empty());
        assert(chars::texts(out@) =~= Seq::<Seq<char>>::empty());
        while i < self.deferred_extents.len()
            invariant
                i <= self.deferred_extents@.len(),
                all == schema::deferred_views(self.deferred_extents@),
                chars::texts(out@) == waiting(all.take(i as int)),
            decreases self.deferred_extents.len() - i,
        {
            assert(all.take(i + 1).drop_last() =~= all.take(i as int));
            assert(all.take(i + 1).last() == self.deferred_extents@[i as int]@);
            compiler::add_name(&mut out, self.deferred_extents[i].start_output.as_str());
            compiler::add_name(&mut out, self.deferred_extents[i].end_output.as_str());
            i = i + 1;
        }
        assert(all.take(i as int) =~= all);
        out
    }

    /// Lowers a program with the outputs that are asked for; as a whole
    /// where nothing is said.
    pub fn compile_filtered<T: Toolbox>(
        &mut self,
        tools: &T,
        file: &PolydatFile,
        required_outputs: Option<&Vec<String>>,
    ) -> (r: Result<(), String>)
        requires
            binds_names(file@),
        ensures
            (final(self)@, compiler::told(r)) == compiled_filtered(
                *tools,
                old(self)@,
                file@,
                match required_outputs {
                    Some(v) => Some(chars::texts(v@)),
                    None => None,
                },
            ),
    {
        match required_outputs {
            None => self.compile(tools, file),
            Some(req) => match self.populate(tools, file) {
                Err(e) => Err(e),
                Ok(_) => {
                    let outputs: Vec<String> = self.choose_outputs(req, file);
                    self.finish(&outputs);
                    Ok(())
                },
            },
        }
    }

    /// Fills in the extents of the cursors that waited for them. `values`
    /// are what the outputs of the folded graph came to.
    pub fn resolve_extents(&mut self, values: &Vec<(String, u64)>)
        ensures
            final(self)@ == (CompilerV {
                schemas: resolved_extents(
                    old(self)@.schemas,
                    old(self)@.deferred,
                    old(self)@.limit,
                    value_views(values@),
                ),
                ..old(self)@
            }),
    {
        let ghost start = self@;
        let ghost all = start.deferred;
        let ghost shown = value_views(values@);
        let mut i: usize = 0;
        assert(all.take(0) =~= Seq::<DeferredV>::empty());
        while i < self.deferred_extents.len()
            invariant
                i <= self.deferred_extents@.len(),
                all == schema::deferred_views(self.deferred_extents@),
                all == start.deferred,
                shown == value_views(values@),
                self@ == (CompilerV {
                    schemas: resolved_extents(
                        start.schemas,
                        all.take(i as int),
                        start.limit,
                        shown,
                    ),
                    ..start
                }),
            decreases self.deferred_extents.len() - i,
        {
            assert(all.take(i + 1).drop_last() =~= all.take(i as int));
            assert(all.take(i + 1).last() == self.deferred_extents@[i as int]@);
            let from: Option<u64> = find_value(
                values,
                self.deferred_extents[i].start_output.as_str(),
            );
            let to: Option<u64> = find_value(values, self.deferred_extents[i].end_output.as_str());
            match (from, to) {
                (Some(s), Some(e)) => {
                    let place: usize = self.deferred_extents[i].schema_idx;
                    let steps: u64 = if e >= s {
                        e - s
                    } else {
                        0
                    };
                    let extent: u64 = match self.cursor_limit {
                        Some(l) => if steps <= l {
                            steps
                        } else {
                            l
                        },
                        None => steps,
                    };
                    if place < self.cursor_schemas.len() {
                        set_extent(&mut self.cursor_schemas, place, extent);
                    }
                },
                _ => {},
            }
            i = i + 1;
        }
        assert(all.take(i as int) =~= all);
    }
}

/// Sets the extent of the cursor at `place`.
fn set_extent(schemas: &mut Vec<SourceSchema>, place: usize, extent: u64)
    requires
        place < old(schemas)@.len(),
    ensures
        schema::schema_views(final(schemas)@) == schema::schema_views(old(schemas)@).update(
            place as int,
            SchemaV {
                extent: Some(extent),
                ..schema::schema_views(old(schemas)@)[place as int]
            },
        ),
{
    let ghost before = schemas@;
    schemas[place].extent = Some(extent);
    assert(schema::schema_views(schemas@) =~= schema::schema_views(before).update(
        place as int,
        SchemaV { extent: Some(extent), ..schema::schema_views(before)[place as int] },
    ));
}

/// The value of `name` in `values`, the first.
fn find_value(values: &Vec<(String, u64)>, name: &str) -> (r: Option<u64>)
    ensures
        r == value_of(value_views(values@), name@),
{
    let ghost all = value_views(values@);
    let mut i: usize = 0;
    assert(all.skip(0) =~= all);
    while i < values.len()
        invariant
            i <= values@.len(),
            all == value_views(values@),
            value_of(all, name@) == value_of(all.skip(i as int), name@),
        decreases values.len() - i,
    {
        assert(all.skip(i as int)[0] == all[i as int]);
        assert(all.skip(i as int).drop_first() =~= all.skip(i + 1));
        if *values[i].0.as_str() == *name {
            return Some(values[i].1);
        }
        i = i + 1;
    }
    None
}

/// Adds the volatile names of a program to `names`.
fn add_volatile(names: &mut Vec<String>, file: &PolydatFile)
    ensures
        chars::texts(final(names)@) == with_volatile(chars::texts(old(names)@), file@),
{
    let ghost all = file@;
    let ghost start = chars::texts(names@);
    let mut i: usize = 0;
    assert(all.take(0) =~= Seq::<StatementV>::empty());
    while i < file.statements.len()
        invariant
            i <= file.statements@.len(),
            all == ast::statement_views(file.statements@),
            chars::texts(names@) == with_volatile(start, all.take(i as int)),
        decreases file.statements.len() - i,
    {
        assert(all.take(i + 1).drop_last() =~= all.take(i as int));
        assert(all.take(i + 1).last() == file.statements@[i as int]@);
        match &file.statements[i] {
            Statement::Binding(b) => {
                if b.modifier.is_volatile() {
                    merge_names(names, &b.targets);
                }
            },
            _ => {},
        }
        i = i + 1;
    }
    assert(all.take(i as int) =~= all);
}

/// `required_outputs` with the constant names of a program, each once.
pub fn extend_required_with_const_bindings(
    required_outputs: &Vec<String>,
    file: &PolydatFile,
) -> (r: Vec<String>)
    ensures
        chars::texts(r@) == with_constants(chars::texts(required_outputs@), file@),
{
    let ghost all = file@;
    let ghost start = chars::texts(required_outputs@);
    let mut out: Vec<String> = chars::copy_strings(required_outputs);
    let mut i: usize = 0;
    assert(all.take(0) =~= Seq::<StatementV>::empty());
    while i < file.statements.len()
        invariant
            i <= file.statements@.len(),
            all == ast::statement_views(file.statements@),
            chars::texts(out@) == with_constants(start, all.take(i as int)),
        decreases file.statements.len() - i,
    {
        assert(all.take(i + 1).drop_last() =~= all.take(i as int));
        assert(all.take(i + 1).last() == file.statements@[i as int]@);
        match &file.statements[i] {
            Statement::Binding(b) => {
                if b.modifier.is_const() {
                    merge_names(&mut out, &b.targets);
                }
            },
            _ => {},
        }
        i = i + 1;
    }
    assert(all.take(i as int) =~= all);
    out
}

// ---------------------------------------------------------------------
// Ways in
// ---------------------------------------------------------------------

/// What lowering came to.
pub open spec fn outcome(step: (CompilerV, Result<(), Seq<char>>)) -> Result<
    CompilerV,
    Seq<char>,
> {
    match step.1 {
        Ok(_) => Ok(step.0),
        Err(e) => Err(e),
    }
}

/// The content of what lowering came to.
pub open spec fn outcome_view(r: Result<Compiler, String>) -> Result<CompilerV, Seq<char>> {
    match r {
        Ok(c) => Ok(c@),
        Err(e) => Err(e@),
    }
}

/// What is asked for: nothing said where no name is required, else the
/// names with the constants.
pub open spec fn asked(required: Seq<Seq<char>>, stmts: Seq<StatementV>) -> Option<
    Seq<Seq<char>>,
> {
    if required.len() == 0 {
        None
    } else {
        Some(with_constants(required, stmts))
    }
}

/// A state for a source with its pragmas.
pub open spec fn sourced(source: Seq<char>, stmts: Seq<StatementV>, strict: bool) -> CompilerV {
    CompilerV { source, pragmas: seq![pragmas::pragmas_of(stmts)], ..fresh(strict) }
}

/// A program that was read, or why it could not be.
pub open spec fn readable(parsed: Result<PolydatFile, String>) -> bool {
    parsed is Ok ==> binds_names(parsed->Ok_0@)
}

/// Lowers the program `file`.
pub fn compile_ast<T: Toolbox>(tools: &T, file: &PolydatFile) -> (r: Result<Compiler, String>)
    requires
        binds_names(file@),
    ensures
        outcome_view(r) == outcome(compiled(*tools, fresh(false), file@)),
{
    compile_ast_with_path(tools, file)
}

/// Lowers the program `file`. Where its modules are looked for is known to
/// the toolbox.
pub fn compile_ast_with_path<T: Toolbox>(tools: &T, file: &PolydatFile) -> (r: Result<
    Compiler,
    String,
>)
    requires
        binds_names(file@),
    ensures
        outcome_view(r) == outcome(compiled(*tools, fresh(false), file@)),
{
    compile_ast_strict(tools, file, false)
}

/// Lowers the program `file`, with its inputs declared where `strict`.
pub fn compile_ast_strict<T: Toolbox>(tools: &T, file: &PolydatFile, strict: bool) -> (r: Result<
    Compiler,
    String,
>)
    requires
        binds_names(file@),
    ensures
        outcome_view(r) == outcome(compiled(*tools, fresh(strict), file@)),
{
    let mut c: Compiler = Compiler::new(strict);
    match c.compile(tools, file) {
        Ok(_) => Ok(c),
        Err(e) => Err(e),
    }
}

/// Lowers what is asked for of `file`, from the state `c`.
fn compile_asked<T: Toolbox>(
    tools: &T,
    c: Compiler,
    file: &PolydatFile,
    required_outputs: &Vec<String>,
) -> (r: Result<Compiler, String>)
    requires
        binds_names(file@),
    ensures
        outcome_view(r) == outcome(
            compiled_filtered(
                *tools,
                c@,
                file@,
                asked(chars::texts(required_outputs@), file@),
            ),
        ),
{
    let mut c: Compiler = c;
    assert(chars::texts(required_outputs@).len() == required_outputs@.len());
    let done: Result<(), String> = if required_outputs.len() == 0 {
        c.compile_filtered(tools, file, None)
    } else {
        let extended: Vec<String> = extend_required_with_const_bindings(required_outputs, file);
        c.compile_filtered(tools, file, Some(&extended))
    };
    match done {
        Ok(_) => Ok(c),
        Err(e) => Err(e),
    }
}

/// Lowers what is asked for of `file`; `context` says where it comes from.
pub fn compile_ast_with_libs<T: Toolbox>(
    tools: &T,
    file: &PolydatFile,
    required_outputs: &Vec<String>,
    strict: bool,
    context: &str,
) -> (r: Result<Compiler, String>)
    requires
        binds_names(file@),
    ensures
        outcome_view(r) == outcome(
            compiled_filtered(
                *tools,
                CompilerV {
                    label: context@,
                    pragmas: seq![pragmas::pragmas_of(file@)],
                    ..fresh(strict)
                },
                file@,
                asked(chars::texts(required_outputs@), file@),
            ),
        ),
{
    let mut c: Compiler = Compiler::new(strict);
    c.context_label = context.to_owned();
    c.pragmas = pragmas::collect_from_ast(file);
    compile_asked(tools, c, file, required_outputs)
}

/// Lowers the program that `source` was read to.
pub fn compile_polydat<T: Toolbox>(
    tools: &T,
    source: &str,
    parsed: Result<PolydatFile, String>,
) -> (r: Result<Compiler, String>)
    requires
        readable(parsed),
    ensures
        outcome_view(r) == match parsed {
            Err(e) => Err(e@),
            Ok(f) => outcome(compiled(*tools, sourced(source@, f@, false), f@)),
        },
{
    compile_polydat_with_path(tools, source, parsed)
}

/// Lowers the program that `source` was read to. Where its modules are
/// looked for is known to the toolbox.
pub fn compile_polydat_with_path<T: Toolbox>(
    tools: &T,
    source: &str,
    parsed: Result<PolydatFile, String>,
) -> (r: Result<Compiler, String>)
    requires
        readable(parsed),
    ensures
        outcome_view(r) == match parsed {
            Err(e) => Err(e@),
            Ok(f) => outcome(compiled(*tools, sourced(source@, f@, false), f@)),
        },
{
    compile_polydat_strict(tools, source, parsed, false)
}

/// Lowers the program that `source` was read to, with its inputs declared
/// where `strict`.
pub fn compile_polydat_strict<T: Toolbox>(
    tools: &T,
    source: &str,
    parsed: Result<PolydatFile, String>,
    strict: bool,
) -> (r: Result<Compiler, String>)
    requires
        readable(parsed),
    ensures
        outcome_view(r) == match parsed {
            Err(e) => Err(e@),
            Ok(f) => outcome(compiled(*tools, sourced(source@, f@, strict), f@)),
        },
{
    match parsed {
        Err(e) => Err(e),
        Ok(file) => {
            let mut c: Compiler = Compiler::new(strict);
            c.source_text = source.to_owned();
            c.pragmas = pragmas::collect_from_ast(&file);
            match c.compile(tools, &file) {
                Ok(_) => Ok(c),
                Err(e) => Err(e),
            }
        },
    }
}

/// Lowers what is asked for of the program that `source` was read to.
pub fn compile_polydat_with_outputs<T: Toolbox>(
    tools: &T,
    source: &str,
    parsed: Result<PolydatFile, String>,
    required_outputs: &Vec<String>,
    strict: bool,
) -> (r: Result<Compiler, String>)
    requires
        readable(parsed),
    ensures
        outcome_view(r) == match parsed {
            Err(e) => Err(e@),
            Ok(f) => outcome(
                compiled_filtered(
                    *tools,
                    sourced(source@, f@, strict),
                    f@,
                    asked(chars::texts(required_outputs@), f@),
                ),
            ),
        },
{
    match parsed {
        Err(e) => Err(e),
        Ok(file) => {
            let mut c: Compiler = Compiler::new(strict);
            c.source_text = source.to_owned();
            c.pragmas = pragmas::collect_from_ast(&file);
            compile_asked(tools, c, &file, required_outputs)
        },
    }
}

/// Lowers what is asked for of the program that `source` was read to;
/// `context` says where it comes from.
pub fn compile_polydat_with_libs<T: Toolbox>(
    tools: &T,
    source: &str,
    parsed: Result<PolydatFile, String>,
    required_outputs: &Vec<String>,
    strict: bool,
    context: &str,
) -> (r: Result<Compiler, String>)
    requires
        readable(parsed),
    ensures
        outcome_view(r) == match parsed {
            Err(e) => Err(e@),
            Ok(f) => outcome(
                compiled_filtered(
                    *tools,
                    CompilerV { label: context@, ..sourced(source@, f@, strict) },
                    f@,
                    asked(chars::texts(required_outputs@), f@),
                ),
            ),
        },
{
    compile_polydat_with_libs_and_limit(
        tools,
        source,
        parsed,
        required_outputs,
        strict,
        context,
        None,
    )
}

/// Lowers what is asked for of the program that `source` was read to, with
/// a limit on every cursor.
pub fn compile_polydat_with_libs_and_limit<T: Toolbox>(
    tools: &T,
    source: &str,
    parsed: Result<PolydatFile, String>,
    required_outputs: &Vec<String>,
    strict: bool,
    context: &str,
    cursor_limit: Option<u64>,
) -> (r: Result<Compiler, String>)
    requires
        readable(parsed),
    ensures
        outcome_view(r) == match parsed {
            Err(e) => Err(e@),
            Ok(f) => outcome(
                compiled_filtered(
                    *tools,
                    CompilerV {
                        label: context@,
                        limit: cursor_limit,
                        ..sourced(source@, f@, strict)
                    },
                    f@,
                    asked(chars::texts(required_outputs@), f@),
                ),
            ),
        },
{
    match parsed {
        Err(e) => Err(e),
        Ok(file) => {
            let mut c: Compiler = Compiler::new(strict);
            c.source_text = source.to_owned();
            c.context_label = context.to_owned();
            c.cursor_limit = cursor_limit;
            c.pragmas = pragmas::collect_from_ast(&file);
            compile_asked(tools, c, &file, required_outputs)
        },
    }
}

/// The graph of the program that `source` was read to, with all its nodes
/// and wiring.
pub fn compile_polydat_to_assembler<T: Toolbox>(
    tools: &T,
    source: &str,
    parsed: Result<PolydatFile, String>,
) -> (r: Result<PolydatAssembler, String>)
    requires
        readable(parsed),
    ensures
        match r {
            Ok(g) => parsed is Ok && outcome(compiled(*tools, fresh(false), parsed->Ok_0@)) is Ok
                && g@ == (GraphV {
                source: source@,
                context: "(polydat source)"@,
                ..compiled(*tools, fresh(false), parsed->Ok_0@).0.graph
            }),
            Err(e) => match parsed {
                Err(m) => e@ == m@,
                Ok(f) => outcome(compiled(*tools, fresh(false), f@)) == Err::<
                    CompilerV,
                    Seq<char>,
                >(e@),
            },
        },
{
    match parsed {
        Err(e) => Err(e),
        Ok(file) => {
            let mut c: Compiler = Compiler::new(false);
            match c.build_assembler(tools, &file) {
                Err(e) => Err(e),
                Ok(_) => {
                    let mut g: PolydatAssembler = c.graph;
                    g.set_context(source, "(polydat source)");
                    Ok(g)
                },
            }
        },
    }
}

/// The graph of the program that `source` was read to, with a report on
/// each of its pragmas.
pub fn compile_polydat_with_log<T: Toolbox>(
    tools: &T,
    source: &str,
    parsed: Result<PolydatFile, String>,
    log: &mut Vec<CompileEvent>,
) -> (r: Result<PolydatAssembler, String>)
    requires
        readable(parsed),
    ensures
        parsed is Err ==> final(log)@ == old(log)@,
        parsed is Ok ==> events::event_views(final(log)@) == events::event_views(old(log)@)
            + Seq::new(
            pragmas::pragmas_of(parsed->Ok_0@).len(),
            |i: int| events::pragma_event(pragmas::pragmas_of(parsed->Ok_0@)[i]),
        ),
        match r {
            Ok(g) => parsed is Ok && outcome(
                compiled(*tools, sourced(source@, parsed->Ok_0@, false), parsed->Ok_0@),
            ) is Ok && g@ == compiled(
                *tools,
                sourced(source@, parsed->Ok_0@, false),
                parsed->Ok_0@,
            ).0.graph,
            Err(e) => match parsed {
                Err(m) => e@ == m@,
                Ok(f) => outcome(compiled(*tools, sourced(source@, f@, false), f@)) == Err::<
                    CompilerV,
                    Seq<char>,
                >(e@),
            },
        },
{
    match parsed {
        Err(e) => Err(e),
        Ok(file) => {
            let set: PragmaSet = pragmas::collect_from_ast(&file);
            events::record_pragma_events(&set, log);
            let mut c: Compiler = Compiler::new(false);
            c.source_text = source.to_owned();
            c.pragmas = set;
            match c.build_assembler(tools, &file) {
                Err(e) => Err(e),
                Ok(_) => Ok(c.graph),
            }
        },
    }
}

// ---------------------------------------------------------------------
// What lowering keeps
// ---------------------------------------------------------------------

/// The inputs that are inferred are the names that are referred to and not
/// bound, in order and each once.
pub proof fn law_inferred_inputs(stmts: Seq<StatementV>)
    ensures
        refs::ascending(inferred_inputs(stmts)),
        forall|n: Seq<char>|
            inferred_inputs(stmts).contains(n) <==> referenced(stmts).contains(n) && !defined(
                stmts,
            ).contains(n),
{
    let all = referenced(stmts);
    let free = |n: Seq<char>| !defined(stmts).contains(n);
    let kept = all.filter(free);
    refs::law_sorted(kept);
    assert forall|n: Seq<char>| kept.contains(n) <==> all.contains(n) && free(n) by {
        lemma_filter_contains(all, free, n);
    }
}

/// Whether a binding of the program with a modifier binds the name.
pub open spec fn binds_with(stmts: Seq<StatementV>, m: WireModifier, name: Seq<char>) -> bool {
    exists|i: int|
        0 <= i < stmts.len() && ((#[trigger] stmts[i]) matches StatementV::Binding(b)
            && b.modifier.holds(m) && b.targets.contains(name))
}

/// Merging keeps the names of both runs.
proof fn lemma_merged(names: Seq<Seq<char>>, more: Seq<Seq<char>>, n: Seq<char>)
    ensures
        refs::merged(names, more).contains(n) <==> names.contains(n) || more.contains(n),
    decreases more.len(),
{
    if more.len() > 0 {
        let front = refs::merged(names, more.drop_last());
        let whole = refs::merged(names, more);
        lemma_merged(names, more.drop_last(), n);
        assert(more =~= more.drop_last().push(more.last()));
        lemma_push_contains(more.drop_last(), more.last(), n);
        if !front.contains(more.last()) {
            lemma_push_contains(front, more.last(), n);
        }
    }
}

/// What is kept of a run are its names that pass.
proof fn lemma_filter_contains(s: Seq<Seq<char>>, p: spec_fn(Seq<char>) -> bool, n: Seq<char>)
    ensures
        s.filter(p).contains(n) <==> s.contains(n) && p(n),
    decreases s.len(),
{
    reveal(Seq::filter);
    if s.len() > 0 {
        let front = s.drop_last();
        lemma_filter_contains(front, p, n);
        lemma_push_contains(front, s.last(), n);
        lemma_push_contains(front.filter(p), s.last(), n);
        assert(s =~= front.push(s.last()));
    }
}

/// A run with one more name holds the names of the run and that one.
proof fn lemma_push_contains(s: Seq<Seq<char>>, x: Seq<char>, n: Seq<char>)
    ensures
        s.push(x).contains(n) <==> s.contains(n) || x == n,
{
    if s.contains(n) {
        let k = s.index_of(n);
        assert(s.push(x)[k] == n);
    }
    if x == n {
        assert(s.push(x)[s.len() as int] == n);
    }
    if s.push(x).contains(n) {
        let k = s.push(x).index_of(n);
        if k < s.len() {
            assert(s[k] == n);
        }
    }
}

/// One more statement binds what it binds.
proof fn lemma_binds_with(stmts: Seq<StatementV>, m: WireModifier, n: Seq<char>)
    requires
        stmts.len() > 0,
    ensures
        binds_with(stmts, m, n) <==> binds_with(stmts.drop_last(), m, n) || (stmts.last() matches
            StatementV::Binding(b) && b.modifier.holds(m) && b.targets.contains(n)),
{
    let front = stmts.drop_last();
    if binds_with(front, m, n) {
        let i = choose|i: int|
            0 <= i < front.len() && ((#[trigger] front[i]) matches StatementV::Binding(b)
                && b.modifier.holds(m) && b.targets.contains(n));
        assert(stmts[i] == front[i]);
    }
    if binds_with(stmts, m, n) {
        let i = choose|i: int|
            0 <= i < stmts.len() && ((#[trigger] stmts[i]) matches StatementV::Binding(b)
                && b.modifier.holds(m) && b.targets.contains(n));
        if i < front.len() {
            assert(front[i] == stmts[i]);
        }
    }
}

/// The names with the constants of a program are those names and the
/// constants.
proof fn lemma_with_constants(names: Seq<Seq<char>>, stmts: Seq<StatementV>, n: Seq<char>)
    ensures
        with_constants(names, stmts).contains(n) <==> names.contains(n) || binds_with(
            stmts,
            WireModifier::Const,
            n,
        ),
    decreases stmts.len(),
{
    if stmts.len() > 0 {
        lemma_with_constants(names, stmts.drop_last(), n);
        lemma_binds_with(stmts, WireModifier::Const, n);
        match stmts.last() {
            StatementV::Binding(b) => {
                lemma_merged(with_constants(names, stmts.drop_last()), b.targets, n);
            },
            _ => {},
        }
    }
}

/// The names with the volatile ones of a program are those names and the
/// volatile ones.
proof fn lemma_with_volatile(names: Seq<Seq<char>>, stmts: Seq<StatementV>, n: Seq<char>)
    ensures
        with_volatile(names, stmts).contains(n) <==> names.contains(n) || binds_with(
            stmts,
            WireModifier::Volatile,
            n,
        ),
    decreases stmts.len(),
{
    if stmts.len() > 0 {
        lemma_with_volatile(names, stmts.drop_last(), n);
        lemma_binds_with(stmts, WireModifier::Volatile, n);
        match stmts.last() {
            StatementV::Binding(b) => {
                lemma_merged(with_volatile(names, stmts.drop_last()), b.targets, n);
            },
            _ => {},
        }
    }
}

/// Two runs hold what either holds.
proof fn lemma_plus_contains(a: Seq<Seq<char>>, b: Seq<Seq<char>>, n: Seq<char>)
    ensures
        (a + b).contains(n) <==> a.contains(n) || b.contains(n),
{
    if a.contains(n) {
        assert((a + b)[a.index_of(n)] == n);
    }
    if b.contains(n) {
        assert((a + b)[a.len() + b.index_of(n)] == n);
    }
    if (a + b).contains(n) {
        let k = (a + b).index_of(n);
        if k < a.len() {
            assert(a[k] == n);
        } else {
            assert(b[k - a.len()] == n);
        }
    }
}

/// Where outputs are asked for, a name that is bound becomes an output
/// exactly where it is asked for, or is a constant, or is volatile, or
/// gives a bound of a cursor. So a constant survives though nothing reads
/// it.
pub proof fn law_asked_outputs(
    c: CompilerV,
    required: Seq<Seq<char>>,
    stmts: Seq<StatementV>,
    n: Seq<char>,
)
    requires
        required.len() > 0,
    ensures
        asked(required, stmts) is Some,
        asked_outputs(c, asked(required, stmts)->0, stmts).contains(n) <==> c.all_names.contains(n)
            && (required.contains(n) || binds_with(stmts, WireModifier::Const, n) || binds_with(
            stmts,
            WireModifier::Volatile,
            n,
        ) || waiting(c.deferred).contains(n) || chars::begins(n, "__cursor_extent_"@)),
{
    let req = asked(required, stmts)->0;
    let is_known = |x: Seq<char>| c.all_names.contains(x);
    let is_extent = |x: Seq<char>| chars::begins(x, "__cursor_extent_"@);
    let wanted = with_volatile(req, stmts);
    lemma_with_constants(required, stmts, n);
    lemma_with_volatile(req, stmts, n);
    lemma_filter_contains(wanted, is_known, n);
    lemma_filter_contains(waiting(c.deferred), is_known, n);
    lemma_filter_contains(c.all_names, is_extent, n);
    let a = known(c.all_names, wanted);
    let b = known(c.all_names, waiting(c.deferred));
    lemma_plus_contains(a, b, n);
    lemma_plus_contains(a + b, c.all_names.filter(is_extent), n);
}

/// Without a filter, lowering is the whole lowering.
pub proof fn law_unfiltered_is_whole<T: Toolbox>(t: T, c: CompilerV, stmts: Seq<StatementV>)
    ensures
        compiled_filtered(t, c, stmts, None) == compiled(t, c, stmts),
        compiled_filtered(t, c, stmts, asked(Seq::empty(), stmts)) == compiled(t, c, stmts),
{
}

/// A filter decides on the outputs alone: a program is refused with the
/// same error, and has the same inputs, nodes, modifiers, constants and
/// strict wires, whatever is asked for.
pub proof fn law_filter_keeps_the_graph<T: Toolbox>(
    t: T,
    c: CompilerV,
    stmts: Seq<StatementV>,
    required: Seq<Seq<char>>,
)
    ensures
        ({
            let whole = compiled(t, c, stmts);
            let part = compiled_filtered(t, c, stmts, Some(required));
            &&& part.1 == whole.1
            &&& part.0.input_names == whole.0.input_names
            &&& part.0.schemas == whole.0.schemas
            &&& part.0.graph.inputs == whole.0.graph.inputs
            &&& part.0.graph.nodes == whole.0.graph.nodes
            &&& part.0.graph.modifiers == whole.0.graph.modifiers
            &&& part.0.graph.const_outputs == whole.0.graph.const_outputs
            &&& part.0.graph.strict_types == whole.0.graph.strict_types
            &&& part.0.graph.strict_values == whole.0.graph.strict_values
        }),
{
}

} // verus!
