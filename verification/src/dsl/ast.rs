//! The syntax tree of a program.
use crate::chars;
use crate::float::Float64;
use crate::value::PortType;
use vstd::prelude::*;

verus! {

/// A place in a source text.
#[derive(Clone, Copy, Debug, PartialEq, Eq, Structural)]
pub struct Span {
    pub line: usize,
    pub col: usize,
}

/// The place of what was not written in a source text.
pub open spec fn nowhere() -> Span {
    Span { line: 0, col: 0 }
}

/// A binary operator.
#[derive(Clone, Copy, Debug, PartialEq, Eq, Structural)]
pub enum BinOpKind {
    Add,
    Sub,
    Mul,
    Div,
    Mod,
    Pow,
    BitAnd,
    BitOr,
    BitXor,
    Shl,
    Shr,
    Eq,
    Ne,
    Lt,
    Gt,
    Le,
    Ge,
    And,
    Or,
}

/// A double and how it prints.
#[derive(Debug, PartialEq)]
pub struct Decimal {
    pub value: Float64,
    /// How it prints.
    pub text: String,
    /// How it prints in a message: with a point or an exponent.
    pub debug: String,
}

/// How a double prints.
#[verifier::ext_equal]
pub struct PrintV {
    pub text: Seq<char>,
    pub debug: Seq<char>,
}

/// An expression.
#[derive(Debug, PartialEq)]
pub enum Expr {
    IntLit(u64, Span),
    FloatLit(Decimal, Span),
    StringLit(String, Span),
    Ident(String, Span),
    Call(CallExpr),
    BinOp(Box<Expr>, BinOpKind, Box<Expr>),
    UnaryNeg(Box<Expr>, Span),
    UnaryBitNot(Box<Expr>, Span),
    ArrayLit(Vec<Expr>, Span),
    Cast(Box<Expr>, PortType, Span),
    FieldAccess { source: String, field: String, span: Span },
}

/// A call of a function.
#[derive(Debug, PartialEq)]
pub struct CallExpr {
    pub func: String,
    pub args: Vec<Arg>,
    pub span: Span,
}

/// An argument of a call.
#[derive(Debug, PartialEq)]
pub enum Arg {
    Positional(Expr),
    Named(String, Expr),
}

/// The content of an expression.
#[verifier::ext_equal]
pub enum ExprV {
    IntLit(u64, Span),
    FloatLit(Float64, PrintV, Span),
    StringLit(Seq<char>, Span),
    Ident(Seq<char>, Span),
    Call(Seq<char>, Seq<ArgV>, Span),
    BinOp(Box<ExprV>, BinOpKind, Box<ExprV>),
    UnaryNeg(Box<ExprV>, Span),
    UnaryBitNot(Box<ExprV>, Span),
    ArrayLit(Seq<ExprV>, Span),
    Cast(Box<ExprV>, PortType, Span),
    FieldAccess(Seq<char>, Seq<char>, Span),
}

/// The content of an argument: its name, if it has one, and its value.
#[verifier::ext_equal]
pub struct ArgV {
    pub name: Option<Seq<char>>,
    pub value: ExprV,
}

/// The content of an expression.
pub open spec fn expr_view(e: Expr) -> ExprV
    decreases e, 0nat,
{
    match e {
        Expr::IntLit(v, s) => ExprV::IntLit(v, s),
        Expr::FloatLit(v, s) => ExprV::FloatLit(
            v.value,
            PrintV { text: v.text@, debug: v.debug@ },
            s,
        ),
        Expr::StringLit(t, s) => ExprV::StringLit(t@, s),
        Expr::Ident(t, s) => ExprV::Ident(t@, s),
        Expr::Call(c) => ExprV::Call(c.func@, arg_views(c.args@), c.span),
        Expr::BinOp(l, op, r) => ExprV::BinOp(
            Box::new(expr_view(*l)),
            op,
            Box::new(expr_view(*r)),
        ),
        Expr::UnaryNeg(x, s) => ExprV::UnaryNeg(Box::new(expr_view(*x)), s),
        Expr::UnaryBitNot(x, s) => ExprV::UnaryBitNot(Box::new(expr_view(*x)), s),
        Expr::ArrayLit(items, s) => ExprV::ArrayLit(expr_views(items@), s),
        Expr::Cast(x, t, s) => ExprV::Cast(Box::new(expr_view(*x)), t, s),
        Expr::FieldAccess { source, field, span } => ExprV::FieldAccess(source@, field@, span),
    }
}

/// The contents of a run of expressions.
pub open spec fn expr_views(s: Seq<Expr>) -> Seq<ExprV>
    decreases s, s.len(),
{
    if s.len() == 0 {
        Seq::empty()
    } else {
        expr_views(s.drop_last()).push(expr_view(s.last()))
    }
}

/// The content of an argument.
pub open spec fn arg_view(a: Arg) -> ArgV
    decreases a, 0nat,
{
    match a {
        Arg::Positional(e) => ArgV { name: None, value: expr_view(e) },
        Arg::Named(n, e) => ArgV { name: Some(n@), value: expr_view(e) },
    }
}

/// The contents of a run of arguments.
pub open spec fn arg_views(s: Seq<Arg>) -> Seq<ArgV>
    decreases s, s.len(),
{
    if s.len() == 0 {
        Seq::empty()
    } else {
        arg_views(s.drop_last()).push(arg_view(s.last()))
    }
}

/// A run of expressions has as many contents, each that of its own.
pub proof fn lemma_expr_views(s: Seq<Expr>)
    ensures
        expr_views(s).len() == s.len(),
        forall|i: int| 0 <= i < s.len() ==> #[trigger] expr_views(s)[i] == expr_view(s[i]),
    decreases s.len(),
{
    if s.len() > 0 {
        lemma_expr_views(s.drop_last());
    }
}

/// A run of arguments has as many contents, each that of its own.
pub proof fn lemma_arg_views(s: Seq<Arg>)
    ensures
        arg_views(s).len() == s.len(),
        forall|i: int| 0 <= i < s.len() ==> #[trigger] arg_views(s)[i] == arg_view(s[i]),
    decreases s.len(),
{
    if s.len() > 0 {
        lemma_arg_views(s.drop_last());
    }
}

impl View for Expr {
    type V = ExprV;

    open spec fn view(&self) -> ExprV {
        expr_view(*self)
    }
}

impl View for Arg {
    type V = ArgV;

    open spec fn view(&self) -> ArgV {
        arg_view(*self)
    }
}

/// The same expressions.
pub fn copy_exprs(v: &Vec<Expr>) -> (r: Vec<Expr>)
    ensures
        expr_views(r@) == expr_views(v@),
    decreases v,
{
    let mut out: Vec<Expr> = Vec::new();
    let mut i: usize = 0;
    while i < v.len()
        invariant
            i <= v@.len(),
            out@.len() == i,
            forall|k: int| 0 <= k < i ==> expr_view(#[trigger] out@[k]) == expr_view(v@[k]),
        decreases v.len() - i,
    {
        assert(decreases_to!(v@ => v@[i as int]));
        assert(decreases_to!(*v => v@));
        out.push(v[i].copy());
        i = i + 1;
    }
    proof {
        lemma_expr_views(out@);
        lemma_expr_views(v@);
        assert(expr_views(out@) =~= expr_views(v@));
    }
    out
}

/// The same arguments.
pub fn copy_args(v: &Vec<Arg>) -> (r: Vec<Arg>)
    ensures
        arg_views(r@) == arg_views(v@),
    decreases v,
{
    let mut out: Vec<Arg> = Vec::new();
    let mut i: usize = 0;
    while i < v.len()
        invariant
            i <= v@.len(),
            out@.len() == i,
            forall|k: int| 0 <= k < i ==> arg_view(#[trigger] out@[k]) == arg_view(v@[k]),
        decreases v.len() - i,
    {
        assert(decreases_to!(v@ => v@[i as int]));
        assert(decreases_to!(*v => v@));
        out.push(v[i].copy());
        i = i + 1;
    }
    proof {
        lemma_arg_views(out@);
        lemma_arg_views(v@);
        assert(arg_views(out@) =~= arg_views(v@));
    }
    out
}

impl Arg {
    /// The same argument.
    pub fn copy(&self) -> (r: Arg)
        ensures
            r@ == self@,
        decreases self,
    {
        match self {
            Arg::Positional(e) => Arg::Positional(e.copy()),
            Arg::Named(n, e) => Arg::Named(n.clone(), e.copy()),
        }
    }

    /// The value of the argument.
    pub fn value(&self) -> (r: &Expr)
        ensures
            r@ == self@.value,
    {
        match self {
            Arg::Positional(e) => e,
            Arg::Named(_, e) => e,
        }
    }
}

impl Expr {
    /// The same expression.
    pub fn copy(&self) -> (r: Expr)
        ensures
            r@ == self@,
        decreases self,
    {
        match self {
            Expr::IntLit(v, s) => Expr::IntLit(*v, *s),
            Expr::FloatLit(v, s) => Expr::FloatLit(
                Decimal { value: v.value, text: v.text.clone(), debug: v.debug.clone() },
                *s,
            ),
            Expr::StringLit(t, s) => Expr::StringLit(t.clone(), *s),
            Expr::Ident(t, s) => Expr::Ident(t.clone(), *s),
            Expr::Call(c) => {
                assert(decreases_to!(*self => *c));
                assert(decreases_to!(*c => c.args));
                Expr::Call(
                    CallExpr { func: c.func.clone(), args: copy_args(&c.args), span: c.span },
                )
            },
            Expr::BinOp(l, op, r) => Expr::BinOp(Box::new(l.copy()), *op, Box::new(r.copy())),
            Expr::UnaryNeg(x, s) => Expr::UnaryNeg(Box::new(x.copy()), *s),
            Expr::UnaryBitNot(x, s) => Expr::UnaryBitNot(Box::new(x.copy()), *s),
            Expr::ArrayLit(items, s) => Expr::ArrayLit(copy_exprs(items), *s),
            Expr::Cast(x, t, s) => Expr::Cast(Box::new(x.copy()), *t, *s),
            Expr::FieldAccess { source, field, span } => Expr::FieldAccess {
                source: source.clone(),
                field: field.clone(),
                span: *span,
            },
        }
    }
}

impl Clone for Expr {
    fn clone(&self) -> (r: Expr)
        ensures
            r@ == self@,
    {
        self.copy()
    }
}

// ---------------------------------------------------------------------
// Statements
// ---------------------------------------------------------------------

/// One modifier of a binding.
#[derive(Clone, Copy, Debug, PartialEq, Eq, Structural)]
pub enum WireModifier {
    /// Fixed once its scope has started.
    Const,
    /// A cell that inner scopes may write.
    Shared,
    /// Evaluated anew on every read.
    Volatile,
}

/// The modifiers of a binding.
#[derive(Clone, Copy, Debug, PartialEq, Eq, Structural)]
pub struct BindingModifier {
    pub constant: bool,
    pub shared: bool,
    pub volatile: bool,
}

impl BindingModifier {
    /// Whether a modifier is among these.
    pub open spec fn holds(self, m: WireModifier) -> bool {
        match m {
            WireModifier::Const => self.constant,
            WireModifier::Shared => self.shared,
            WireModifier::Volatile => self.volatile,
        }
    }

    /// These modifiers and one more.
    pub open spec fn with(self, m: WireModifier) -> BindingModifier {
        match m {
            WireModifier::Const => BindingModifier { constant: true, ..self },
            WireModifier::Shared => BindingModifier { shared: true, ..self },
            WireModifier::Volatile => BindingModifier { volatile: true, ..self },
        }
    }

    /// No modifier.
    pub open spec fn plain() -> BindingModifier {
        BindingModifier { constant: false, shared: false, volatile: false }
    }

    /// No modifier.
    pub fn none() -> (r: BindingModifier)
        ensures
            r == Self::plain(),
    {
        BindingModifier { constant: false, shared: false, volatile: false }
    }

    /// One modifier.
    pub fn only(m: WireModifier) -> (r: BindingModifier)
        ensures
            r == Self::plain().with(m),
    {
        let mut r: BindingModifier = Self::none();
        r.insert(m);
        r
    }

    /// Whether `m` is among these.
    pub fn has(&self, m: WireModifier) -> (r: bool)
        ensures
            r == self.holds(m),
    {
        match m {
            WireModifier::Const => self.constant,
            WireModifier::Shared => self.shared,
            WireModifier::Volatile => self.volatile,
        }
    }

    /// Adds `m`.
    pub fn insert(&mut self, m: WireModifier)
        ensures
            *final(self) == old(self).with(m),
    {
        match m {
            WireModifier::Const => {
                self.constant = true;
            },
            WireModifier::Shared => {
                self.shared = true;
            },
            WireModifier::Volatile => {
                self.volatile = true;
            },
        }
    }

    /// Whether the binding is constant.
    pub fn is_const(&self) -> (r: bool)
        ensures
            r == self.constant,
    {
        self.constant
    }

    /// Whether the binding is volatile.
    pub fn is_volatile(&self) -> (r: bool)
        ensures
            r == self.volatile,
    {
        self.volatile
    }
}

/// The declaration of a graph input.
#[derive(Debug, PartialEq)]
pub struct InputDecl {
    pub name: String,
    pub ty: Option<String>,
    pub span: Span,
}

/// The binding of one or more names.
#[derive(Debug, PartialEq)]
pub struct Binding {
    pub targets: Vec<String>,
    pub value: Expr,
    pub modifier: BindingModifier,
    pub type_annotation: Option<String>,
    pub span: Span,
}

/// The definition of a module.
#[derive(Debug, PartialEq)]
pub struct ModuleDef {
    pub name: String,
    pub span: Span,
}

/// The declaration of a value that comes from outside the program.
#[derive(Debug, PartialEq)]
pub struct ExternPort {
    pub name: String,
    pub typ: String,
    pub default: Option<Expr>,
    pub span: Span,
}

/// The declaration of a cursor.
#[derive(Debug, PartialEq)]
pub struct CursorDecl {
    pub name: String,
    pub constructor: Expr,
    pub over: Option<Expr>,
    pub span: Span,
}

/// A statement.
#[derive(Debug, PartialEq)]
pub enum Statement {
    InputDecl(InputDecl),
    Binding(Binding),
    ModuleDef(ModuleDef),
    ExternPort(ExternPort),
    Cursor(CursorDecl),
    Pragma { name: String, span: Span },
}

/// A program.
#[derive(Debug, PartialEq)]
pub struct PolydatFile {
    pub statements: Vec<Statement>,
}

/// The content of the declaration of a cursor.
#[verifier::ext_equal]
pub struct CursorDeclV {
    pub name: Seq<char>,
    pub constructor: ExprV,
    pub over: Option<ExprV>,
    pub span: Span,
}

/// The content of a binding.
#[verifier::ext_equal]
pub struct BindingV {
    pub targets: Seq<Seq<char>>,
    pub value: ExprV,
    pub modifier: BindingModifier,
    pub annotation: Option<Seq<char>>,
    pub span: Span,
}

/// The content of a statement.
#[verifier::ext_equal]
pub enum StatementV {
    InputDecl(Seq<char>, Option<Seq<char>>, Span),
    Binding(BindingV),
    ModuleDef(Seq<char>, Span),
    ExternPort(Seq<char>, Seq<char>, Option<ExprV>, Span),
    Cursor(CursorDeclV),
    Pragma(Seq<char>, Span),
}

/// The content of a text that may be missing.
pub open spec fn maybe_text(t: Option<String>) -> Option<Seq<char>> {
    match t {
        Some(s) => Some(s@),
        None => None,
    }
}

/// The content of an expression that may be missing.
pub open spec fn maybe_expr(e: Option<Expr>) -> Option<ExprV> {
    match e {
        Some(x) => Some(x@),
        None => None,
    }
}

impl View for Binding {
    type V = BindingV;

    open spec fn view(&self) -> BindingV {
        BindingV {
            targets: chars::texts(self.targets@),
            value: self.value@,
            modifier: self.modifier,
            annotation: maybe_text(self.type_annotation),
            span: self.span,
        }
    }
}

impl View for CursorDecl {
    type V = CursorDeclV;

    open spec fn view(&self) -> CursorDeclV {
        CursorDeclV {
            name: self.name@,
            constructor: self.constructor@,
            over: maybe_expr(self.over),
            span: self.span,
        }
    }
}

impl View for Statement {
    type V = StatementV;

    open spec fn view(&self) -> StatementV {
        match *self {
            Statement::InputDecl(d) => StatementV::InputDecl(d.name@, maybe_text(d.ty), d.span),
            Statement::Binding(b) => StatementV::Binding(b@),
            Statement::ModuleDef(m) => StatementV::ModuleDef(m.name@, m.span),
            Statement::ExternPort(p) => StatementV::ExternPort(
                p.name@,
                p.typ@,
                maybe_expr(p.default),
                p.span,
            ),
            Statement::Cursor(c) => StatementV::Cursor(c@),
            Statement::Pragma { name, span } => StatementV::Pragma(name@, span),
        }
    }
}

/// The contents of a run of statements.
pub open spec fn statement_views(s: Seq<Statement>) -> Seq<StatementV> {
    Seq::new(s.len(), |i: int| s[i]@)
}

impl View for PolydatFile {
    type V = Seq<StatementV>;

    open spec fn view(&self) -> Seq<StatementV> {
        statement_views(self.statements@)
    }
}

} // verus!
