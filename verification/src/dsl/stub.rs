//! Bindings and graphs built without source text.
use crate::chars;
use crate::dsl::ast;
use crate::dsl::ast::{
    Binding, BindingModifier, BindingV, Decimal, Expr, ExprV, ExternPort, PrintV, Span, Statement,
    StatementV, WireModifier,
};
use crate::float::Float64;
use crate::value;
use crate::value::PortType;
use vstd::prelude::*;

verus! {

/// A type of the host that has a port type.
pub trait Wire {
    /// The port type.
    spec fn port_spec() -> PortType;

    /// The port type.
    fn port() -> (r: PortType)
        ensures
            r == Self::port_spec(),
    ;
}

impl Wire for u64 {
    open spec fn port_spec() -> PortType {
        PortType::U64
    }

    fn port() -> (r: PortType) {
        PortType::U64
    }
}

impl Wire for Float64 {
    open spec fn port_spec() -> PortType {
        PortType::F64
    }

    fn port() -> (r: PortType) {
        PortType::F64
    }
}

impl Wire for bool {
    open spec fn port_spec() -> PortType {
        PortType::Bool
    }

    fn port() -> (r: PortType) {
        PortType::Bool
    }
}

impl Wire for String {
    open spec fn port_spec() -> PortType {
        PortType::Str
    }

    fn port() -> (r: PortType) {
        PortType::Str
    }
}

/// A binding in the making.
#[derive(Debug)]
pub struct ExprStub {
    name: String,
    expr: Expr,
    modifier: BindingModifier,
}

/// The content of a binding in the making.
#[verifier::ext_equal]
pub struct StubV {
    pub name: Seq<char>,
    pub expr: ExprV,
    pub modifier: BindingModifier,
}

impl View for ExprStub {
    type V = StubV;

    closed spec fn view(&self) -> StubV {
        StubV { name: self.name@, expr: self.expr@, modifier: self.modifier }
    }
}

/// The statement that a binding in the making becomes.
pub open spec fn stub_statement(s: StubV) -> StatementV {
    StatementV::Binding(
        BindingV {
            targets: seq![s.name],
            value: s.expr,
            modifier: s.modifier,
            annotation: None,
            span: ast::nowhere(),
        },
    )
}

impl ExprStub {
    /// The binding of `name` to `expr`.
    pub fn new(name: &str, expr: Expr) -> (r: ExprStub)
        ensures
            r@ == (StubV { name: name@, expr: expr@, modifier: BindingModifier::plain() }),
    {
        ExprStub { name: name.to_owned(), expr, modifier: BindingModifier::none() }
    }

    /// The binding of `name` to what an expression was read to, or why it
    /// could not be read.
    pub fn parse(name: &str, parsed: Result<Expr, String>) -> (r: Result<ExprStub, String>)
        ensures
            match parsed {
                Ok(e) => r is Ok && r->Ok_0@ == (StubV {
                    name: name@,
                    expr: e@,
                    modifier: BindingModifier::plain(),
                }),
                Err(m) => r is Err && r->Err_0@ == m@,
            },
    {
        match parsed {
            Ok(e) => Ok(ExprStub::new(name, e)),
            Err(m) => Err(m),
        }
    }

    /// The same binding, cast to the type of `T`.
    pub fn returning<T: Wire>(self) -> (r: ExprStub)
        ensures
            r@ == (StubV {
                expr: ExprV::Cast(Box::new(self@.expr), T::port_spec(), ast::nowhere()),
                ..self@
            }),
    {
        ExprStub {
            name: self.name,
            expr: Expr::Cast(Box::new(self.expr), T::port(), Span { line: 0, col: 0 }),
            modifier: self.modifier,
        }
    }

    /// The same binding, evaluated anew on every read.
    pub fn volatile(self) -> (r: ExprStub)
        ensures
            r@ == (StubV { modifier: self@.modifier.with(WireModifier::Volatile), ..self@ }),
    {
        let mut m: BindingModifier = self.modifier;
        m.insert(WireModifier::Volatile);
        ExprStub { name: self.name, expr: self.expr, modifier: m }
    }

    /// The statement that the binding becomes.
    pub fn into_statement(self) -> (r: Statement)
        ensures
            r@ == stub_statement(self@),
    {
        let ghost shown = self.name@;
        let mut targets: Vec<String> = Vec::new();
        targets.push(self.name);
        assert(chars::texts(targets@) =~= seq![shown]);
        Statement::Binding(
            Binding {
                targets,
                value: self.expr,
                modifier: self.modifier,
                type_annotation: None,
                span: Span { line: 0, col: 0 },
            },
        )
    }
}

/// Statements for a graph.
#[derive(Debug)]
pub struct GraphMatter {
    statements: Vec<Statement>,
}

impl View for GraphMatter {
    type V = Seq<StatementV>;

    closed spec fn view(&self) -> Seq<StatementV> {
        ast::statement_views(self.statements@)
    }
}

/// The declaration of a value from outside, with zero as its default.
pub open spec fn port_statement(name: Seq<char>, port: PortType) -> StatementV {
    StatementV::ExternPort(
        name,
        value::port_keyword(port),
        Some(
            if port == PortType::F64 {
                ExprV::FloatLit(
                    Float64 { bits: 0 },
                    PrintV { text: "0"@, debug: "0.0"@ },
                    ast::nowhere(),
                )
            } else {
                ExprV::IntLit(0, ast::nowhere())
            },
        ),
        ast::nowhere(),
    )
}

impl GraphMatter {
    /// No statement.
    pub fn new() -> (r: GraphMatter)
        ensures
            r@ == Seq::<StatementV>::empty(),
    {
        let r: GraphMatter = GraphMatter { statements: Vec::new() };
        assert(r@ =~= Seq::<StatementV>::empty());
        r
    }

    /// Declares a value of the type of `T` that comes from outside.
    pub fn extern_wire<T: Wire>(&mut self, name: &str)
        ensures
            final(self)@ == old(self)@.push(port_statement(name@, T::port_spec())),
    {
        self.extern_wire_typed(name, T::port())
    }

    /// Declares a value that comes from outside.
    pub fn extern_wire_typed(&mut self, name: &str, port: PortType)
        ensures
            final(self)@ == old(self)@.push(port_statement(name@, port)),
    {
        let span: Span = Span { line: 0, col: 0 };
        let default: Expr = if port == PortType::F64 {
            Expr::FloatLit(
                Decimal {
                    value: Float64::from_bits(0),
                    text: "0".to_owned(),
                    debug: "0.0".to_owned(),
                },
                span,
            )
        } else {
            Expr::IntLit(0, span)
        };
        let s: Statement = Statement::ExternPort(
            ExternPort {
                name: name.to_owned(),
                typ: port.to_keyword().to_owned(),
                default: Some(default),
                span,
            },
        );
        let ghost before = self.statements@;
        let ghost shown = s@;
        self.statements.push(s);
        assert(ast::statement_views(self.statements@) =~= ast::statement_views(before).push(
            shown,
        ));
    }

    /// Adds the statement that `stub` becomes.
    pub fn bind(&mut self, stub: ExprStub)
        ensures
            final(self)@ == old(self)@.push(stub_statement(stub@)),
    {
        let s: Statement = stub.into_statement();
        let ghost before = self.statements@;
        let ghost shown = s@;
        self.statements.push(s);
        assert(ast::statement_views(self.statements@) =~= ast::statement_views(before).push(
            shown,
        ));
    }

    /// The statements.
    pub fn into_statements(self) -> (r: Vec<Statement>)
        ensures
            ast::statement_views(r@) == self@,
    {
        self.statements
    }
}

/// Whether a value counts as true: a truth value as it is, a double other
/// than zero, an integer other than zero.
pub open spec fn truthy(v: value::DatumV) -> bool {
    match v {
        value::DatumV::Bool(b) => b,
        value::DatumV::F64(x) => !x.zero(),
        value::DatumV::U64(n) => n != 0,
        _ => false,
    }
}

/// Whether `v` counts as true. A value that is neither a truth value nor a
/// number has no such reading.
pub fn is_true(v: &value::Datum) -> (r: bool)
    requires
        v@ is Bool || v@ is F64 || v@ is U64,
    ensures
        r == truthy(v@),
{
    match v {
        value::Datum::Bool(b) => *b,
        value::Datum::F64(x) => !x.is_zero(),
        value::Datum::U64(n) => *n != 0,
        _ => false,
    }
}

} // verus!
