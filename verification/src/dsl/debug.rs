//! How syntax trees print in messages.
use crate::chars;
use crate::dsl::ast;
use crate::dsl::ast::{Arg, ArgV, BinOpKind, Expr, ExprV, Span};
use crate::value;
use vstd::prelude::*;

verus! {

/// How a place prints.
pub open spec fn span_text(s: Span) -> Seq<char> {
    "Span { line: "@ + chars::decimal(s.line as nat) + ", col: "@ + chars::decimal(s.col as nat)
        + " }"@
}

/// How an operator prints.
pub open spec fn op_text(op: BinOpKind) -> Seq<char> {
    match op {
        BinOpKind::Add => "Add"@,
        BinOpKind::Sub => "Sub"@,
        BinOpKind::Mul => "Mul"@,
        BinOpKind::Div => "Div"@,
        BinOpKind::Mod => "Mod"@,
        BinOpKind::Pow => "Pow"@,
        BinOpKind::BitAnd => "BitAnd"@,
        BinOpKind::BitOr => "BitOr"@,
        BinOpKind::BitXor => "BitXor"@,
        BinOpKind::Shl => "Shl"@,
        BinOpKind::Shr => "Shr"@,
        BinOpKind::Eq => "Eq"@,
        BinOpKind::Ne => "Ne"@,
        BinOpKind::Lt => "Lt"@,
        BinOpKind::Gt => "Gt"@,
        BinOpKind::Le => "Le"@,
        BinOpKind::Ge => "Ge"@,
        BinOpKind::And => "And"@,
        BinOpKind::Or => "Or"@,
    }
}

/// How an expression prints.
pub open spec fn expr_text(e: ExprV) -> Seq<char>
    decreases e, 0nat,
{
    match e {
        ExprV::IntLit(v, s) => "IntLit("@ + chars::decimal(v as nat) + ", "@ + span_text(s) + ")"@,
        ExprV::FloatLit(_, p, s) => "FloatLit("@ + p.debug + ", "@ + span_text(s) + ")"@,
        ExprV::StringLit(t, s) => "StringLit("@ + chars::quoted_text(t) + ", "@ + span_text(s)
            + ")"@,
        ExprV::Ident(t, s) => "Ident("@ + chars::quoted_text(t) + ", "@ + span_text(s) + ")"@,
        ExprV::Call(func, args, s) => "Call(CallExpr { func: "@ + chars::quoted_text(func)
            + ", args: ["@ + args_text(args) + "], span: "@ + span_text(s) + " })"@,
        ExprV::BinOp(l, op, r) => "BinOp("@ + expr_text(*l) + ", "@ + op_text(op) + ", "@
            + expr_text(*r) + ")"@,
        ExprV::UnaryNeg(x, s) => "UnaryNeg("@ + expr_text(*x) + ", "@ + span_text(s) + ")"@,
        ExprV::UnaryBitNot(x, s) => "UnaryBitNot("@ + expr_text(*x) + ", "@ + span_text(s)
            + ")"@,
        ExprV::ArrayLit(items, s) => "ArrayLit(["@ + exprs_text(items) + "], "@ + span_text(s)
            + ")"@,
        ExprV::Cast(x, t, s) => "Cast("@ + expr_text(*x) + ", "@ + value::port_name(t) + ", "@
            + span_text(s) + ")"@,
        ExprV::FieldAccess(source, field, s) => "FieldAccess { source: "@ + chars::quoted_text(
            source,
        ) + ", field: "@ + chars::quoted_text(field) + ", span: "@ + span_text(s) + " }"@,
    }
}

/// How an argument prints.
pub open spec fn arg_text(a: ArgV) -> Seq<char>
    decreases a, 0nat,
{
    match a.name {
        None => "Positional("@ + expr_text(a.value) + ")"@,
        Some(n) => "Named("@ + chars::quoted_text(n) + ", "@ + expr_text(a.value) + ")"@,
    }
}

/// How a run of arguments prints.
pub open spec fn args_text(s: Seq<ArgV>) -> Seq<char>
    decreases s, s.len(),
{
    if s.len() == 0 {
        Seq::empty()
    } else {
        proof {
            assert(decreases_to!(s => s.last()));
        }
        if s.len() == 1 {
            arg_text(s.last())
        } else {
            args_text(s.drop_last()) + ", "@ + arg_text(s.last())
        }
    }
}

/// How a run of expressions prints.
pub open spec fn exprs_text(s: Seq<ExprV>) -> Seq<char>
    decreases s, s.len(),
{
    if s.len() == 0 {
        Seq::empty()
    } else if s.len() == 1 {
        expr_text(s.last())
    } else {
        exprs_text(s.drop_last()) + ", "@ + expr_text(s.last())
    }
}

/// How `s` prints.
fn show_span(s: Span) -> (r: String)
    ensures
        r@ == span_text(s),
{
    let mut out: String = "Span { line: ".to_owned();
    out.append(chars::usize_text(s.line).as_str());
    out.append(", col: ");
    out.append(chars::usize_text(s.col).as_str());
    out.append(" }");
    out
}

/// How `op` prints.
fn show_op(op: BinOpKind) -> (r: &'static str)
    ensures
        r@ == op_text(op),
{
    match op {
        BinOpKind::Add => "Add",
        BinOpKind::Sub => "Sub",
        BinOpKind::Mul => "Mul",
        BinOpKind::Div => "Div",
        BinOpKind::Mod => "Mod",
        BinOpKind::Pow => "Pow",
        BinOpKind::BitAnd => "BitAnd",
        BinOpKind::BitOr => "BitOr",
        BinOpKind::BitXor => "BitXor",
        BinOpKind::Shl => "Shl",
        BinOpKind::Shr => "Shr",
        BinOpKind::Eq => "Eq",
        BinOpKind::Ne => "Ne",
        BinOpKind::Lt => "Lt",
        BinOpKind::Gt => "Gt",
        BinOpKind::Le => "Le",
        BinOpKind::Ge => "Ge",
        BinOpKind::And => "And",
        BinOpKind::Or => "Or",
    }
}

/// Ends the text of what stands at `s`.
fn finish(out: &mut String, s: Span, end: &str)
    ensures
        final(out)@ == old(out)@ + span_text(s) + end@,
{
    out.append(show_span(s).as_str());
    out.append(end);
}

/// How `e` prints in a message.
pub fn show_expr(e: &Expr) -> (r: String)
    ensures
        r@ == expr_text(e@),
    decreases e, 0nat,
{
    match e {
        Expr::IntLit(v, s) => {
            let mut out: String = "IntLit(".to_owned();
            out.append(chars::u64_text(*v).as_str());
            out.append(", ");
            finish(&mut out, *s, ")");
            out
        },
        Expr::FloatLit(x, s) => {
            let mut out: String = "FloatLit(".to_owned();
            out.append(x.debug.as_str());
            out.append(", ");
            finish(&mut out, *s, ")");
            out
        },
        Expr::StringLit(t, s) => {
            let mut out: String = "StringLit(".to_owned();
            out.append(chars::quoted(t.as_str()).as_str());
            out.append(", ");
            finish(&mut out, *s, ")");
            out
        },
        Expr::Ident(t, s) => {
            let mut out: String = "Ident(".to_owned();
            out.append(chars::quoted(t.as_str()).as_str());
            out.append(", ");
            finish(&mut out, *s, ")");
            out
        },
        Expr::Call(call) => {
            let mut out: String = "Call(CallExpr { func: ".to_owned();
            out.append(chars::quoted(call.func.as_str()).as_str());
            out.append(", args: [");
            out.append(show_args(&call.args).as_str());
            out.append("], span: ");
            finish(&mut out, call.span, " })");
            out
        },
        Expr::BinOp(l, op, r) => {
            let mut out: String = "BinOp(".to_owned();
            out.append(show_expr(l).as_str());
            out.append(", ");
            out.append(show_op(*op));
            out.append(", ");
            out.append(show_expr(r).as_str());
            out.append(")");
            out
        },
        Expr::UnaryNeg(x, s) => {
            let mut out: String = "UnaryNeg(".to_owned();
            out.append(show_expr(x).as_str());
            out.append(", ");
            finish(&mut out, *s, ")");
            out
        },
        Expr::UnaryBitNot(x, s) => {
            let mut out: String = "UnaryBitNot(".to_owned();
            out.append(show_expr(x).as_str());
            out.append(", ");
            finish(&mut out, *s, ")");
            out
        },
        Expr::ArrayLit(items, s) => {
            let mut out: String = "ArrayLit([".to_owned();
            out.append(show_exprs(items).as_str());
            out.append("], ");
            finish(&mut out, *s, ")");
            out
        },
        Expr::Cast(x, t, s) => {
            let mut out: String = "Cast(".to_owned();
            out.append(show_expr(x).as_str());
            out.append(", ");
            out.append(t.name());
            out.append(", ");
            finish(&mut out, *s, ")");
            out
        },
        Expr::FieldAccess { source, field, span } => {
            let mut out: String = "FieldAccess { source: ".to_owned();
            out.append(chars::quoted(source.as_str()).as_str());
            out.append(", field: ");
            out.append(chars::quoted(field.as_str()).as_str());
            out.append(", span: ");
            finish(&mut out, *span, " }");
            out
        },
    }
}

/// How `a` prints.
fn show_arg(a: &Arg) -> (r: String)
    ensures
        r@ == arg_text(ast::arg_view(*a)),
    decreases a, 0nat,
{
    match a {
        Arg::Positional(e) => {
            let mut out: String = "Positional(".to_owned();
            out.append(show_expr(e).as_str());
            out.append(")");
            out
        },
        Arg::Named(n, e) => {
            let mut out: String = "Named(".to_owned();
            out.append(chars::quoted(n.as_str()).as_str());
            out.append(", ");
            out.append(show_expr(e).as_str());
            out.append(")");
            out
        },
    }
}

/// How a run of arguments prints.
fn show_args(v: &Vec<Arg>) -> (r: String)
    ensures
        r@ == args_text(ast::arg_views(v@)),
    decreases v, 1nat,
{
    let ghost all = ast::arg_views(v@);
    let mut out: String = "".to_owned();
    let mut i: usize = 0;
    proof {
        ast::lemma_arg_views(v@);
        reveal_strlit("");
        assert(out@ =~= args_text(all.take(0)));
    }
    while i < v.len()
        invariant
            i <= v@.len(),
            all == ast::arg_views(v@),
            all.len() == v@.len(),
            forall|k: int| 0 <= k < v@.len() ==> #[trigger] all[k] == ast::arg_view(v@[k]),
            out@ == args_text(all.take(i as int)),
        decreases v.len() - i,
    {
        assert(decreases_to!(v@ => v@[i as int]));
        assert(decreases_to!(*v => v@));
        assert(all.take(i + 1).drop_last() =~= all.take(i as int));
        assert(all.take(i + 1).last() == all[i as int]);
        let part: String = show_arg(&v[i]);
        if i > 0 {
            out.append(", ");
            out.append(part.as_str());
        } else {
            out = part;
        }
        i = i + 1;
    }
    assert(all.take(i as int) =~= all);
    out
}

/// How a run of expressions prints.
fn show_exprs(v: &Vec<Expr>) -> (r: String)
    ensures
        r@ == exprs_text(ast::expr_views(v@)),
    decreases v, 1nat,
{
    let ghost all = ast::expr_views(v@);
    let mut out: String = "".to_owned();
    let mut i: usize = 0;
    proof {
        ast::lemma_expr_views(v@);
        reveal_strlit("");
        assert(out@ =~= exprs_text(all.take(0)));
    }
    while i < v.len()
        invariant
            i <= v@.len(),
            all == ast::expr_views(v@),
            all.len() == v@.len(),
            forall|k: int| 0 <= k < v@.len() ==> #[trigger] all[k] == ast::expr_view(v@[k]),
            out@ == exprs_text(all.take(i as int)),
        decreases v.len() - i,
    {
        assert(decreases_to!(v@ => v@[i as int]));
        assert(decreases_to!(*v => v@));
        assert(all.take(i + 1).drop_last() =~= all.take(i as int));
        assert(all.take(i + 1).last() == all[i as int]);
        let part: String = show_expr(&v[i]);
        if i > 0 {
            out.append(", ");
            out.append(part.as_str());
        } else {
            out = part;
        }
        i = i + 1;
    }
    assert(all.take(i as int) =~= all);
    out
}

} // verus!
