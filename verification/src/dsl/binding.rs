//! Lowering of one binding.
//!
//! A call becomes a node, a literal a constant node, a name an alias. A
//! literal where a function takes a wire becomes a constant node of a
//! made-up name, so that `pow(x, 3.0)` needs no name for the exponent. An
//! operator becomes the call of the function for the types of its operands.
use crate::chars;
use crate::dsl::assembly;
use crate::dsl::assembly::{BuiltNode, BuiltV, KindV, NodeKind, WireRef, WireV};
use crate::dsl::ast;
use crate::dsl::ast::{Arg, ArgV, BinOpKind, CallExpr, Expr, ExprV, Span};
use crate::dsl::compiler;
use crate::dsl::compiler::{Compiler, CompilerV, Toolbox};
use crate::dsl::factory;
use crate::dsl::factory::{ConstArg, ConstV};
use crate::dsl::registry::{Arity, DefaultResolver, FuncSig, SlotType};
use crate::float;
use crate::float::Float64;
use crate::value;
use crate::value::PortType;
use vstd::prelude::*;

verus! {

// ---------------------------------------------------------------------
// Texts with placeholders
// ---------------------------------------------------------------------

/// The place of the first closing brace from `from` on, or the end.
pub open spec fn brace_end(s: Seq<char>, from: int) -> int
    decreases s.len() - from,
{
    if from >= s.len() || from < 0 {
        s.len() as int
    } else if s[from] == '}' {
        from
    } else {
        brace_end(s, from + 1)
    }
}

/// What stands between braces in a text, from `from` on. The last opening
/// brace may have no closing one.
pub open spec fn bodies(s: Seq<char>, from: int) -> Seq<Seq<char>>
    decreases s.len() + 1 - from,
    via bodies_end
{
    if from >= s.len() || from < 0 {
        Seq::empty()
    } else if s[from] == '{' {
        let end = brace_end(s, from + 1);
        seq![s.subrange(from + 1, end)] + bodies(s, end + 1)
    } else {
        bodies(s, from + 1)
    }
}

#[via_fn]
proof fn bodies_end(s: Seq<char>, from: int) {
    if 0 <= from < s.len() {
        lemma_brace_end(s, from + 1);
    }
}

/// A closing brace is found at or after the place the search starts from.
proof fn lemma_brace_end(s: Seq<char>, from: int)
    requires
        0 <= from <= s.len(),
    ensures
        from <= brace_end(s, from) <= s.len(),
    decreases s.len() - from,
{
    if from < s.len() && s[from] != '}' {
        lemma_brace_end(s, from + 1);
    }
}

/// Whether what stands between braces is text of its own: it begins with a
/// quote.
pub open spec fn quoted(body: Seq<char>) -> bool {
    let t = chars::trim(body);
    t.len() > 0 && (t[0] == '\'' || t[0] == '"')
}

/// Whether what stands between braces is the name of something.
pub open spec fn placeholder(body: Seq<char>) -> bool {
    chars::trim(body).len() > 0 && !quoted(body)
}

/// Whether a text has a placeholder.
pub open spec fn has_placeholder(s: Seq<char>) -> bool {
    exists|i: int| 0 <= i < bodies(s, 0).len() && placeholder(#[trigger] bodies(s, 0)[i])
}

/// The names between braces, each where it first stands.
pub open spec fn bind_names(all: Seq<Seq<char>>) -> Seq<Seq<char>>
    decreases all.len(),
{
    if all.len() == 0 {
        Seq::empty()
    } else {
        let front = bind_names(all.drop_last());
        if quoted(all.last()) || front.contains(all.last()) {
            front
        } else {
            front.push(all.last())
        }
    }
}

/// The text as a format, from `from` on: empty braces for each name, and
/// what is text of its own as it stands.
pub open spec fn format_text(s: Seq<char>, from: int) -> Seq<char>
    decreases s.len() + 1 - from,
    via format_text_end
{
    if from >= s.len() || from < 0 {
        Seq::empty()
    } else if s[from] == '{' {
        let end = brace_end(s, from + 1);
        let body = s.subrange(from + 1, end);
        let here = if quoted(body) {
            if end < s.len() {
                seq!['{'] + body + seq!['}']
            } else {
                seq!['{'] + body
            }
        } else {
            seq!['{', '}']
        };
        here + format_text(s, end + 1)
    } else {
        seq![s[from]] + format_text(s, from + 1)
    }
}

#[via_fn]
proof fn format_text_end(s: Seq<char>, from: int) {
    if 0 <= from < s.len() {
        lemma_brace_end(s, from + 1);
    }
}

/// The place of the first closing brace from `from` on, or the end.
fn find_brace_end(s: &Vec<char>, from: usize) -> (r: usize)
    requires
        from <= s@.len(),
    ensures
        from <= r <= s@.len(),
        r == brace_end(s@, from as int),
{
    let mut i: usize = from;
    while i < s.len()
        invariant
            from <= i <= s@.len(),
            brace_end(s@, from as int) == brace_end(s@, i as int),
        decreases s.len() - i,
    {
        if s[i] == '}' {
            return i;
        }
        i = i + 1;
    }
    i
}

/// Whether `body` is text of its own.
fn is_quoted(body: &Vec<char>) -> (r: bool)
    ensures
        r == quoted(body@),
{
    let t: Vec<char> = chars::trim_chars(body);
    t.len() > 0 && (t[0] == '\'' || t[0] == '"')
}

/// What stands between braces in `s`, in order.
pub fn brace_bodies(s: &Vec<char>) -> (r: Vec<Vec<char>>)
    ensures
        r@.len() == bodies(s@, 0).len(),
        forall|i: int| 0 <= i < r@.len() ==> (#[trigger] r@[i])@ == bodies(s@, 0)[i],
{
    let mut out: Vec<Vec<char>> = Vec::new();
    let ghost mut seen: Seq<Seq<char>> = Seq::empty();
    let mut i: usize = 0;
    assert(seen + bodies(s@, 0) =~= bodies(s@, 0));
    while i < s.len()
        invariant
            i <= s@.len(),
            bodies(s@, 0) == seen + bodies(s@, i as int),
            out@.len() == seen.len(),
            forall|k: int| 0 <= k < out@.len() ==> (#[trigger] out@[k])@ == seen[k],
        decreases s.len() - i,
    {
        if s[i] == '{' {
            let end: usize = find_brace_end(s, i + 1);
            let body: Vec<char> = chars::slice_chars(s, i + 1, end);
            let ghost text = s@.subrange(i + 1, end as int);
            proof {
                assert(seen + (seq![text] + bodies(s@, end + 1)) =~= seen.push(text) + bodies(
                    s@,
                    end + 1,
                ));
                seen = seen.push(text);
            }
            out.push(body);
            if end < s.len() {
                i = end + 1;
            } else {
                assert(bodies(s@, end + 1) =~= bodies(s@, end as int));
                i = end;
            }
        } else {
            i = i + 1;
        }
    }
    assert(seen + bodies(s@, i as int) =~= seen);
    out
}

/// Whether the text `s` has a placeholder.
fn string_lit_has_real_placeholder(s: &str) -> (r: bool)
    ensures
        r == has_placeholder(s@),
{
    let text: Vec<char> = chars::chars_of(s);
    let all: Vec<Vec<char>> = brace_bodies(&text);
    let mut i: usize = 0;
    while i < all.len()
        invariant
            i <= all@.len(),
            all@.len() == bodies(s@, 0).len(),
            forall|k: int| 0 <= k < all@.len() ==> (#[trigger] all@[k])@ == bodies(s@, 0)[k],
            forall|k: int| 0 <= k < i ==> !placeholder(#[trigger] bodies(s@, 0)[k]),
        decreases all.len() - i,
    {
        let t: Vec<char> = chars::trim_chars(&all[i]);
        if t.len() > 0 && !is_quoted(&all[i]) {
            assert(placeholder(bodies(s@, 0)[i as int]));
            return true;
        }
        assert(!placeholder(bodies(s@, 0)[i as int]));
        i = i + 1;
    }
    false
}

/// The names between braces in `text`, each where it first stands.
fn collect_bind_names(text: &Vec<char>) -> (r: Vec<String>)
    ensures
        chars::texts(r@) == bind_names(bodies(text@, 0)),
{
    let all: Vec<Vec<char>> = brace_bodies(text);
    let ghost shown = bodies(text@, 0);
    let mut out: Vec<String> = Vec::new();
    let mut i: usize = 0;
    assert(shown.take(0) =~= Seq::<Seq<char>>::empty());
    assert(chars::texts(out@) =~= Seq::<Seq<char>>::empty());
    while i < all.len()
        invariant
            i <= all@.len(),
            shown == bodies(text@, 0),
            all@.len() == shown.len(),
            forall|k: int| 0 <= k < all@.len() ==> (#[trigger] all@[k])@ == shown[k],
            chars::texts(out@) == bind_names(shown.take(i as int)),
        decreases all.len() - i,
    {
        assert(shown.take(i + 1).drop_last() =~= shown.take(i as int));
        assert(shown.take(i + 1).last() == all@[i as int]@);
        let name: String = chars::string_of(&all[i]);
        if !is_quoted(&all[i]) && !compiler::listed(&out, name.as_str()) {
            compiler::add_name(&mut out, name.as_str());
        }
        i = i + 1;
    }
    assert(shown.take(i as int) =~= shown);
    out
}

/// The text as a format.
fn build_format(s: &Vec<char>) -> (r: String)
    ensures
        r@ == format_text(s@, 0),
{
    let mut out: Vec<char> = Vec::new();
    let mut i: usize = 0;
    assert(out@ + format_text(s@, 0) =~= format_text(s@, 0));
    while i < s.len()
        invariant
            i <= s@.len(),
            format_text(s@, 0) == out@ + format_text(s@, i as int),
        decreases s.len() - i,
    {
        let ghost before = out@;
        if s[i] == '{' {
            let end: usize = find_brace_end(s, i + 1);
            let body: Vec<char> = chars::slice_chars(s, i + 1, end);
            if is_quoted(&body) {
                out.push('{');
                let mut k: usize = 0;
                let ghost open = out@;
                assert(open + body@.take(0) =~= open);
                while k < body.len()
                    invariant
                        k <= body@.len(),
                        out@ == open + body@.take(k as int),
                    decreases body.len() - k,
                {
                    out.push(body[k]);
                    k = k + 1;
                    assert(open + body@.take(k as int) =~= (open + body@.take(k - 1)).push(
                        body@[k - 1],
                    ));
                }
                assert(body@.take(k as int) =~= body@);
                if end < s.len() {
                    out.push('}');
                    assert(out@ =~= before + (seq!['{'] + body@ + seq!['}']));
                } else {
                    assert(out@ =~= before + (seq!['{'] + body@));
                }
            } else {
                out.push('{');
                out.push('}');
                assert(out@ =~= before + seq!['{', '}']);
            }
            assert(before + format_text(s@, i as int) =~= out@ + format_text(s@, end + 1));
            if end < s.len() {
                i = end + 1;
            } else {
                assert(format_text(s@, end + 1) =~= format_text(s@, end as int));
                i = end;
            }
        } else {
            out.push(s[i]);
            assert(before + format_text(s@, i as int) =~= out@ + format_text(s@, i + 1));
            i = i + 1;
        }
    }
    assert(out@ + format_text(s@, i as int) =~= out@);
    chars::string_of(&out)
}

// ---------------------------------------------------------------------
// Expressions
// ---------------------------------------------------------------------

/// The place of an expression; an operation has none of its own.
pub open spec fn span_of(e: ExprV) -> Span {
    match e {
        ExprV::IntLit(_, s) => s,
        ExprV::FloatLit(_, _, s) => s,
        ExprV::StringLit(_, s) => s,
        ExprV::Ident(_, s) => s,
        ExprV::Call(_, _, s) => s,
        ExprV::BinOp(_, _, _) => ast::nowhere(),
        ExprV::UnaryNeg(_, s) => s,
        ExprV::UnaryBitNot(_, s) => s,
        ExprV::ArrayLit(_, s) => s,
        ExprV::Cast(_, _, s) => s,
        ExprV::FieldAccess(_, _, s) => s,
    }
}

/// The place of `expr`.
fn expr_span(expr: &Expr) -> (r: Span)
    ensures
        r == span_of(expr@),
{
    match expr {
        Expr::IntLit(_, s) => *s,
        Expr::FloatLit(_, s) => *s,
        Expr::StringLit(_, s) => *s,
        Expr::Ident(_, s) => *s,
        Expr::Call(c) => c.span,
        Expr::BinOp(_, _, _) => Span { line: 0, col: 0 },
        Expr::UnaryNeg(_, s) => *s,
        Expr::UnaryBitNot(_, s) => *s,
        Expr::ArrayLit(_, s) => *s,
        Expr::Cast(_, _, s) => *s,
        Expr::FieldAccess { span, .. } => *span,
    }
}

/// An element of a list as text. A whole double gets a point; what is no
/// literal is a question mark.
pub open spec fn element_text(e: ExprV) -> Seq<char>
    decreases e,
{
    match e {
        ExprV::IntLit(v, _) => chars::decimal(v as nat),
        ExprV::FloatLit(x, print, _) => if x.finite() && !print.text.contains('.') {
            print.text + ".0"@
        } else {
            print.text
        },
        ExprV::StringLit(s, _) => s,
        ExprV::Ident(s, _) => s,
        ExprV::UnaryNeg(x, _) => "-"@ + element_text(*x),
        _ => "?"@,
    }
}

/// The elements of a list as one text.
pub open spec fn list_text(elems: Seq<ExprV>) -> Seq<char> {
    chars::joined(Seq::new(elems.len(), |i: int| element_text(elems[i])), ", "@)
}

/// Whether `c` is in `s`.
fn has_char(s: &str, c: char) -> (r: bool)
    ensures
        r == s@.contains(c),
{
    let text: Vec<char> = chars::chars_of(s);
    let mut i: usize = 0;
    while i < text.len()
        invariant
            i <= text@.len(),
            text@ == s@,
            forall|k: int| 0 <= k < i ==> text@[k] != c,
        decreases text.len() - i,
    {
        if text[i] == c {
            assert(s@[i as int] == c);
            return true;
        }
        i = i + 1;
    }
    false
}

/// The element `e` as text.
fn show_element(e: &Expr) -> (r: String)
    ensures
        r@ == element_text(e@),
    decreases e,
{
    match e {
        Expr::IntLit(v, _) => chars::u64_text(*v),
        Expr::FloatLit(x, _) => {
            let mut out: String = x.text.clone();
            if x.value.is_finite() && !has_char(x.text.as_str(), '.') {
                out.append(".0");
            }
            out
        },
        Expr::StringLit(s, _) => s.clone(),
        Expr::Ident(s, _) => s.clone(),
        Expr::UnaryNeg(x, _) => {
            let mut out: String = "-".to_owned();
            out.append(show_element(x).as_str());
            out
        },
        _ => "?".to_owned(),
    }
}

/// The elements of a list as one text.
fn render_list_literal(elems: &Vec<Expr>) -> (r: String)
    ensures
        r@ == list_text(ast::expr_views(elems@)),
{
    let ghost shown = ast::expr_views(elems@);
    let ghost all = Seq::new(shown.len(), |i: int| element_text(shown[i]));
    proof {
        ast::lemma_expr_views(elems@);
    }
    let mut parts: Vec<String> = Vec::new();
    let mut i: usize = 0;
    while i < elems.len()
        invariant
            i <= elems@.len(),
            parts@.len() == i,
            all.len() == elems@.len(),
            forall|k: int| 0 <= k < all.len() ==> #[trigger] all[k] == element_text(elems@[k]@),
            forall|k: int| 0 <= k < i ==> (#[trigger] parts@[k])@ == all[k],
        decreases elems.len() - i,
    {
        parts.push(show_element(&elems[i]));
        i = i + 1;
    }
    assert(chars::texts(parts@) =~= all);
    chars::join(&parts, ", ")
}

/// The doubles of a list; what is no number is zero.
pub open spec fn doubles_of(elems: Seq<ExprV>) -> Seq<Float64> {
    Seq::new(
        elems.len(),
        |i: int|
            match elems[i] {
                ExprV::FloatLit(x, _, _) => x,
                ExprV::IntLit(v, _) => Float64 { bits: float::int_bits(v as int) },
                _ => Float64 { bits: 0 },
            },
    )
}

/// The doubles of `elems`.
fn read_doubles(elems: &Vec<Expr>) -> (r: Vec<Float64>)
    ensures
        r@ == doubles_of(ast::expr_views(elems@)),
{
    let ghost all = doubles_of(ast::expr_views(elems@));
    proof {
        ast::lemma_expr_views(elems@);
    }
    let mut out: Vec<Float64> = Vec::new();
    let mut i: usize = 0;
    while i < elems.len()
        invariant
            i <= elems@.len(),
            out@.len() == i,
            all == doubles_of(ast::expr_views(elems@)),
            ast::expr_views(elems@).len() == elems@.len(),
            forall|k: int|
                0 <= k < elems@.len() ==> #[trigger] ast::expr_views(elems@)[k] == elems@[k]@,
            forall|k: int| 0 <= k < i ==> out@[k] == all[k],
        decreases elems.len() - i,
    {
        assert(ast::expr_views(elems@)[i as int] == elems@[i as int]@);
        let x: Float64 = match &elems[i] {
            Expr::FloatLit(x, _) => x.value,
            Expr::IntLit(v, _) => Float64::from_u64(*v),
            _ => Float64::from_bits(0),
        };
        out.push(x);
        i = i + 1;
    }
    assert(out@ =~= all);
    out
}

/// An expression, widened to a double.
pub open spec fn widening(e: ExprV) -> ExprV {
    ExprV::Call("to_f64"@, seq![ArgV { name: None, value: e }], span_of(e))
}

/// One argument without a name.
fn one_arg(e: Expr) -> (r: Vec<Arg>)
    ensures
        ast::arg_views(r@) == seq![ArgV { name: None, value: e@ }],
{
    let ghost shown = seq![ArgV { name: None, value: e@ }];
    let mut r: Vec<Arg> = Vec::new();
    r.push(Arg::Positional(e));
    proof {
        ast::lemma_arg_views(r@);
        assert(ast::arg_views(r@) =~= shown);
    }
    r
}

/// `inner`, widened to a double.
fn wrap_to_f64(inner: Expr) -> (r: Expr)
    ensures
        r@ == widening(inner@),
{
    let span: Span = expr_span(&inner);
    Expr::Call(CallExpr { func: "to_f64".to_owned(), args: one_arg(inner), span })
}

/// The operands of a chain of additions, from left to right.
pub open spec fn summands(e: ExprV) -> Seq<ExprV>
    decreases e,
{
    match e {
        ExprV::BinOp(l, BinOpKind::Add, r) => summands(*l) + summands(*r),
        _ => seq![e],
    }
}

/// Adds the operands of the additions in `expr` to `out`.
fn flatten_str_add<'a>(expr: &'a Expr, out: &mut Vec<&'a Expr>)
    ensures
        refs_view(final(out)@) == refs_view(old(out)@) + summands(expr@),
    decreases expr,
{
    match expr {
        Expr::BinOp(l, BinOpKind::Add, r) => {
            let ghost before = refs_view(out@);
            flatten_str_add(l, out);
            flatten_str_add(r, out);
            assert(refs_view(out@) =~= before + (summands(l@) + summands(r@)));
        },
        _ => {
            let ghost before = out@;
            out.push(expr);
            assert(refs_view(out@) =~= refs_view(before) + seq![expr@]);
        },
    }
}

/// The contents of a run of expressions by reference.
pub open spec fn refs_view(s: Seq<&Expr>) -> Seq<ExprV> {
    Seq::new(s.len(), |i: int| s[i]@)
}

// ---------------------------------------------------------------------
// Types of expressions
// ---------------------------------------------------------------------

/// Whether a function is taken to give a double by its name alone.
pub open spec fn double_by_name(f: Seq<char>) -> bool {
    chars::begins(f, "f64_"@) || chars::begins(f, "to_f64"@) || f == "sin"@ || f == "cos"@ || f
        == "tan"@ || f == "asin"@ || f == "acos"@ || f == "atan"@ || f == "atan2"@ || f == "sqrt"@
        || f == "abs_f64"@ || f == "ln"@ || f == "exp"@ || f == "pow"@ || f == "lerp"@ || f
        == "scale_range"@ || f == "unit_interval"@ || f == "clamp_f64"@ || f == "quantize"@ || f
        == "discretize"@ || f == "f64_mod"@ || f == "icd_normal"@ || f == "icd_uniform"@
}

/// Whether `f` is taken to give a double by its name alone.
fn named_as_double(f: &str) -> (r: bool)
    ensures
        r == double_by_name(f@),
{
    chars::begins_with(f, "f64_") || chars::begins_with(f, "to_f64") || *f == *"sin" || *f
        == *"cos" || *f == *"tan" || *f == *"asin" || *f == *"acos" || *f == *"atan" || *f
        == *"atan2" || *f == *"sqrt" || *f == *"abs_f64" || *f == *"ln" || *f == *"exp" || *f
        == *"pow" || *f == *"lerp" || *f == *"scale_range" || *f == *"unit_interval" || *f
        == *"clamp_f64" || *f == *"quantize" || *f == *"discretize" || *f == *"f64_mod" || *f
        == *"icd_normal" || *f == *"icd_uniform"
}

/// A type, or the integer type where it is not known.
pub open spec fn or_integer(t: Option<PortType>) -> PortType {
    match t {
        Some(t) => t,
        None => PortType::U64,
    }
}

/// The type of a sum, a difference, a product, a quotient or a remainder.
pub open spec fn arithmetic_type(op: BinOpKind, lt: PortType, rt: PortType) -> PortType {
    if op == BinOpKind::Add && (lt == PortType::Str || rt == PortType::Str) {
        PortType::Str
    } else if lt == PortType::F64 || rt == PortType::F64 {
        PortType::F64
    } else {
        PortType::U64
    }
}

/// The type that an expression is taken to have before it is lowered.
pub open spec fn inferred<T: Toolbox>(t: T, c: CompilerV, e: ExprV) -> PortType
    decreases e,
{
    match e {
        ExprV::IntLit(_, _) => PortType::U64,
        ExprV::FloatLit(_, _, _) => PortType::F64,
        ExprV::StringLit(_, _) => PortType::Str,
        ExprV::Cast(_, ty, _) => ty,
        ExprV::Ident(name, _) => if c.input_names.contains(name) {
            or_integer(c.graph.input_type(name))
        } else {
            or_integer(c.graph.output_type(name))
        },
        ExprV::Call(f, _, _) => match t.signature(f) {
            Some(sig) => match sig.output_port {
                Some(port) => port,
                None => if double_by_name(f) {
                    PortType::F64
                } else {
                    PortType::U64
                },
            },
            None => if double_by_name(f) {
                PortType::F64
            } else {
                PortType::U64
            },
        },
        ExprV::BinOp(l, op, r) => match op {
            BinOpKind::Pow => PortType::F64,
            BinOpKind::Add
            | BinOpKind::Sub
            | BinOpKind::Mul
            | BinOpKind::Div
            | BinOpKind::Mod => arithmetic_type(op, inferred(t, c, *l), inferred(t, c, *r)),
            _ => PortType::U64,
        },
        ExprV::UnaryNeg(_, _) => PortType::F64,
        ExprV::UnaryBitNot(_, _) => PortType::U64,
        ExprV::ArrayLit(_, _) => PortType::U64,
        ExprV::FieldAccess(source, field, _) => or_integer(
            c.graph.output_type(compiler::field_wire(source, field)),
        ),
    }
}

/// The type that `expr` is taken to have.
pub(crate) fn infer_expr_type<T: Toolbox>(tools: &T, c: &Compiler, expr: &Expr) -> (r: PortType)
    ensures
        r == inferred(*tools, c@, expr@),
    decreases expr,
{
    match expr {
        Expr::IntLit(_, _) => PortType::U64,
        Expr::FloatLit(_, _) => PortType::F64,
        Expr::StringLit(_, _) => PortType::Str,
        Expr::Cast(_, ty, _) => *ty,
        Expr::Ident(name, _) => {
            let found: Option<PortType> = if compiler::listed(&c.input_names, name.as_str()) {
                c.graph.input_type(name.as_str())
            } else {
                c.graph.output_type(name.as_str())
            };
            match found {
                Some(t) => t,
                None => PortType::U64,
            }
        },
        Expr::Call(call) => {
            match tools.lookup(call.func.as_str()) {
                Some(sig) => match sig.output_port {
                    Some(port) => {
                        return port;
                    },
                    None => {},
                },
                None => {},
            }
            if named_as_double(call.func.as_str()) {
                PortType::F64
            } else {
                PortType::U64
            }
        },
        Expr::BinOp(l, op, r) => match op {
            BinOpKind::Pow => PortType::F64,
            BinOpKind::Add
            | BinOpKind::Sub
            | BinOpKind::Mul
            | BinOpKind::Div
            | BinOpKind::Mod => {
                let lt: PortType = infer_expr_type(tools, c, l);
                let rt: PortType = infer_expr_type(tools, c, r);
                if *op == BinOpKind::Add && (lt == PortType::Str || rt == PortType::Str) {
                    PortType::Str
                } else if lt == PortType::F64 || rt == PortType::F64 {
                    PortType::F64
                } else {
                    PortType::U64
                }
            },
            _ => PortType::U64,
        },
        Expr::UnaryNeg(_, _) => PortType::F64,
        Expr::UnaryBitNot(_, _) => PortType::U64,
        Expr::ArrayLit(_, _) => PortType::U64,
        Expr::FieldAccess { source, field, .. } => {
            let name: String = compiler::field_name(source.as_str(), field.as_str());
            match c.graph.output_type(name.as_str()) {
                Some(t) => t,
                None => PortType::U64,
            }
        },
    }
}

// ---------------------------------------------------------------------
// What lowering does
// ---------------------------------------------------------------------

/// A measure of an expression that grows less with every step of lowering.
pub open spec fn weight(e: ExprV) -> nat
    decreases e, 0nat,
{
    match e {
        ExprV::Call(f, args, _) => args_weight(args) + if f == "if"@ {
            5nat
        } else {
            1nat
        },
        ExprV::BinOp(l, op, r) => weight(*l) + weight(*r) + if op == BinOpKind::And || op
            == BinOpKind::Or {
            4nat
        } else {
            1nat
        },
        ExprV::UnaryNeg(x, _) => weight(*x) + 1,
        ExprV::UnaryBitNot(x, _) => weight(*x) + 1,
        ExprV::Cast(x, _, _) => weight(*x) + 1,
        _ => 1,
    }
}

/// The measure of a run of arguments.
pub open spec fn args_weight(args: Seq<ArgV>) -> nat
    decreases args, args.len(),
{
    if args.len() == 0 {
        0
    } else {
        args_weight(args.drop_last()) + weight(args.last().value)
    }
}

/// The measure of a run of expressions.
pub open spec fn exprs_weight(s: Seq<ExprV>) -> nat
    decreases s.len(),
{
    if s.len() == 0 {
        0
    } else {
        exprs_weight(s.drop_last()) + weight(s.last())
    }
}

pub proof fn lemma_weight_positive(e: ExprV)
    ensures
        weight(e) >= 1,
{
}

pub proof fn lemma_exprs_weight_add(a: Seq<ExprV>, b: Seq<ExprV>)
    ensures
        exprs_weight(a + b) == exprs_weight(a) + exprs_weight(b),
    decreases b.len(),
{
    if b.len() == 0 {
        assert(a + b =~= a);
    } else {
        assert((a + b).drop_last() =~= a + b.drop_last());
        lemma_exprs_weight_add(a, b.drop_last());
    }
}

pub proof fn lemma_summands_weight(e: ExprV)
    ensures
        exprs_weight(summands(e)) <= weight(e),
    decreases e,
{
    match e {
        ExprV::BinOp(l, BinOpKind::Add, r) => {
            lemma_summands_weight(*l);
            lemma_summands_weight(*r);
            lemma_exprs_weight_add(summands(*l), summands(*r));
        },
        _ => {
            assert(seq![e].drop_last() =~= Seq::<ExprV>::empty());
            assert(exprs_weight(Seq::<ExprV>::empty()) == 0);
            assert(exprs_weight(seq![e]) == weight(e));
        },
    }
}

/// What a step of lowering leaves and says.
pub type Step = (CompilerV, Result<(), Seq<char>>);

/// What an argument comes to: a wire, or a constant.
pub enum ItemV {
    Wire(WireV),
    Const(ConstV),
}

/// The slots of a function, by position.
pub open spec fn slots_of(sig: Option<FuncSig>) -> Seq<SlotType> {
    match sig {
        Some(s) => Seq::new(s.params@.len(), |i: int| s.params@[i].slot_type),
        None => Seq::empty(),
    }
}

/// Whether a function takes any number of wires.
pub open spec fn takes_wires(sig: Option<FuncSig>) -> bool {
    match sig {
        Some(s) => s.arity is VariadicWires,
        None => false,
    }
}

/// Whether the argument at a place has to be a wire.
pub open spec fn wants_wire(slots: Seq<SlotType>, variadic: bool, i: int) -> bool {
    if 0 <= i < slots.len() {
        slots[i] is Wire
    } else {
        variadic
    }
}

/// A literal as an argument: a constant node where a wire is wanted.
pub open spec fn literal(
    c: CompilerV,
    wanted: bool,
    kind: KindV,
    constant: ConstV,
) -> (CompilerV, Result<ItemV, Seq<char>>) {
    if wanted {
        (c.anon_node(kind, Seq::empty()), Ok(ItemV::Wire(WireV::Node(c.anon(), 0))))
    } else {
        (c, Ok(ItemV::Const(constant)))
    }
}

/// The call of a selection: both branches as one type, a text before a
/// double before an integer.
pub open spec fn selection<T: Toolbox>(
    t: T,
    c: CompilerV,
    args: Seq<ArgV>,
    span: Span,
) -> ExprV {
    let a = args[1].value;
    let b = args[2].value;
    let at = inferred(t, c, a);
    let bt = inferred(t, c, b);
    let text = at == PortType::Str || bt == PortType::Str;
    let double = !text && (at == PortType::F64 || bt == PortType::F64);
    let wa = if double && at == PortType::U64 {
        widening(a)
    } else {
        a
    };
    let wb = if double && bt == PortType::U64 {
        widening(b)
    } else {
        b
    };
    let func = if text {
        "select_str"@
    } else if double {
        "select_f64"@
    } else {
        "select_u64"@
    };
    ExprV::Call(
        func,
        seq![args[0], ArgV { name: None, value: wa }, ArgV { name: None, value: wb }],
        span,
    )
}

pub proof fn lemma_selection_weight<T: Toolbox>(
    t: T,
    c: CompilerV,
    args: Seq<ArgV>,
    span: Span,
)
    requires
        args.len() == 3,
    ensures
        weight(selection(t, c, args, span)) < weight(ExprV::Call("if"@, args, span)),
{
    reveal_with_fuel(args_weight, 5);
    let new = selection(t, c, args, span);
    match new {
        ExprV::Call(f, list, _) => {
            reveal_strlit("if");
            reveal_strlit("select_str");
            reveal_strlit("select_f64");
            reveal_strlit("select_u64");
            assert(f != "if"@) by {
                assert(f.len() == 10);
            }
            lemma_three(args);
            lemma_three(list);
            lemma_widening_weight(args[1].value);
            lemma_widening_weight(args[2].value);
        },
        _ => {},
    }
}

pub proof fn lemma_widening_weight(e: ExprV)
    ensures
        weight(widening(e)) == weight(e) + 1,
{
    reveal_strlit("to_f64");
    reveal_strlit("if");
    assert("to_f64"@.len() != "if"@.len());
    let list = seq![ArgV { name: None, value: e }];
    assert(list.drop_last() =~= Seq::<ArgV>::empty());
    assert(args_weight(Seq::<ArgV>::empty()) == 0);
    assert(args_weight(list) == weight(e));
}

proof fn lemma_three(args: Seq<ArgV>)
    requires
        args.len() == 3,
    ensures
        args_weight(args) == weight(args[0].value) + weight(args[1].value) + weight(
            args[2].value,
        ),
{
    let two = args.drop_last();
    let one = two.drop_last();
    assert(one.drop_last() =~= Seq::<ArgV>::empty());
    assert(args_weight(Seq::<ArgV>::empty()) == 0);
    assert(args_weight(one) == weight(args[0].value));
    assert(args_weight(two) == args_weight(one) + weight(args[1].value));
}

/// The function of an operator for the types of its operands, and which of
/// them is widened to a double; or why there is none.
pub open spec fn operation(op: BinOpKind, lt: PortType, rt: PortType) -> Result<
    (Seq<char>, bool, bool),
    Seq<char>,
> {
    let li = lt == PortType::U64;
    let ri = rt == PortType::U64;
    let ints = li && ri;
    let text = lt == PortType::Str || rt == PortType::Str;
    let double = !text && (lt == PortType::F64 || rt == PortType::F64);
    match op {
        BinOpKind::Add => if ints {
            Ok(("u64_add"@, false, false))
        } else {
            Ok(("f64_add"@, li, ri))
        },
        BinOpKind::Sub => if ints {
            Ok(("u64_sub"@, false, false))
        } else {
            Ok(("f64_sub"@, li, ri))
        },
        BinOpKind::Mul => if ints {
            Ok(("u64_mul"@, false, false))
        } else {
            Ok(("f64_mul"@, li, ri))
        },
        BinOpKind::Div => if ints {
            Ok(("u64_div"@, false, false))
        } else {
            Ok(("f64_div"@, li, ri))
        },
        BinOpKind::Mod => if ints {
            Ok(("u64_mod"@, false, false))
        } else {
            Ok(("f64_mod"@, li, ri))
        },
        BinOpKind::Pow => Ok(("pow"@, li, ri)),
        BinOpKind::BitAnd => Ok(("u64_and"@, false, false)),
        BinOpKind::BitOr => Ok(("u64_or"@, false, false)),
        BinOpKind::BitXor => Ok(("u64_xor"@, false, false)),
        BinOpKind::Shl => Ok(("u64_shl"@, false, false)),
        BinOpKind::Shr => Ok(("u64_shr"@, false, false)),
        BinOpKind::Eq => if text {
            Ok(("str_eq"@, false, false))
        } else if double {
            Ok(("f64_eq"@, li, ri))
        } else {
            Ok(("u64_eq"@, false, false))
        },
        BinOpKind::Ne => if text {
            Ok(("str_ne"@, false, false))
        } else if double {
            Ok(("f64_ne"@, li, ri))
        } else {
            Ok(("u64_ne"@, false, false))
        },
        BinOpKind::Lt => if text {
            Err(unordered("<"@))
        } else if double {
            Ok(("f64_lt"@, li, ri))
        } else {
            Ok(("u64_lt"@, false, false))
        },
        BinOpKind::Gt => if text {
            Err(unordered(">"@))
        } else if double {
            Ok(("f64_gt"@, li, ri))
        } else {
            Ok(("u64_gt"@, false, false))
        },
        BinOpKind::Le => if text {
            Err(unordered("<="@))
        } else if double {
            Ok(("f64_le"@, li, ri))
        } else {
            Ok(("u64_le"@, false, false))
        },
        BinOpKind::Ge => if text {
            Err(unordered(">="@))
        } else if double {
            Ok(("f64_ge"@, li, ri))
        } else {
            Ok(("u64_ge"@, false, false))
        },
        BinOpKind::And => Ok(("u64_and"@, false, false)),
        BinOpKind::Or => Ok(("u64_or"@, false, false)),
    }
}

/// Why texts are not ordered by an operator.
pub open spec fn unordered(symbol: Seq<char>) -> Seq<char> {
    "comparison operator `"@ + symbol
        + "` is not supported for String operands; only `==` and `!=` are defined on strings. Compare string values for equality, or convert to a numeric type for ordering comparisons."@
}

/// A wire, widened to a double where that is needed.
pub open spec fn widened(c: CompilerV, w: WireV, needed: bool) -> (CompilerV, WireV) {
    if needed {
        (c.anon_node(KindV::ToF64, seq![w]), WireV::Node(c.anon(), 0))
    } else {
        (c, w)
    }
}

/// The binding of a name to the node of a function without constants.
pub open spec fn made<T: Toolbox>(
    t: T,
    c: CompilerV,
    name: Seq<char>,
    func: Seq<char>,
    wires: Seq<WireV>,
    types: Seq<PortType>,
) -> Step {
    match t.built(None, func, wires, types, Seq::empty()) {
        Err(e) => (c, Err(e)),
        Ok(b) => (c.bind_node(name, KindV::Built(b), wires), Ok(())),
    }
}

/// The comparison of an expression with zero.
pub open spec fn truth(e: ExprV) -> ExprV {
    ExprV::BinOp(Box::new(e), BinOpKind::Ne, Box::new(ExprV::IntLit(0, span_of(e))))
}

pub proof fn lemma_truth_weight(e: ExprV)
    ensures
        weight(e) >= 1,
        weight(truth(e)) == weight(e) + 2,
{
    assert(weight(ExprV::IntLit(0, span_of(e))) == 1);
}

/// What turns a value of one type into one of another, or why nothing does.
pub open spec fn fusion(name: Seq<char>, from: PortType, to: PortType) -> Result<
    KindV,
    Seq<char>,
> {
    if from == to {
        Ok(KindV::PortPassthrough(name, to))
    } else if from == PortType::U64 && to == PortType::F64 {
        Ok(KindV::ToF64)
    } else if from == PortType::Str && to == PortType::U64 {
        Ok(KindV::StrToU64)
    } else if from == PortType::F64 && to == PortType::U64 {
        Err(
            "`as u64`: narrowing f64 → u64 is not allowed under `as` — it loses precision and the rounding is ambiguous. Choose explicitly: `f64_to_u64(x)` (truncate), `round_to_u64(x)`, `floor_to_u64(x)`, or `ceil_to_u64(x)`. `as` performs only widening / alignment fusion (SRD-84 Part 1b)."@,
        )
    } else {
        Err(
            "`as "@ + value::port_name(to) + "`: no type-fusion from "@ + value::port_name(from)
                + " to "@ + value::port_name(to) + " is defined (SRD-84 Part 1b)"@,
        )
    }
}

/// The alias of a name: the wire as it is, with its type.
pub open spec fn aliased(c: CompilerV, name: Seq<char>, id: Seq<char>) -> CompilerV {
    let w = c.wire_of(id);
    let ty = or_integer(c.graph.wire_type(w));
    if ty == PortType::U64 {
        c.bind_node(name, KindV::Identity(PortType::U64), seq![w])
    } else {
        c.bind_node(name, KindV::PortPassthrough(name, ty), seq![w])
    }
}

/// The binding of a name to a text: a format where the text has a
/// placeholder.
pub open spec fn text_bound(c: CompilerV, name: Seq<char>, s: Seq<char>) -> CompilerV {
    if s.contains('{') && s.contains('}') && has_placeholder(s) {
        let names = bind_names(bodies(s, 0));
        c.bind_node(
            name,
            KindV::Printf(format_text(s, 0), names.len()),
            Seq::new(names.len(), |i: int| c.wire_of(names[i])),
        )
    } else {
        c.bind_node(name, KindV::ConstStr(s), Seq::empty())
    }
}

/// The bindings of several names to the outputs of a node.
pub open spec fn spread(
    c: CompilerV,
    internal: Seq<char>,
    outs: Seq<PortType>,
    targets: Seq<Seq<char>>,
) -> CompilerV
    decreases targets.len(),
{
    if targets.len() == 0 {
        c
    } else {
        let i = targets.len() - 1;
        let ty = if i < outs.len() {
            outs[i]
        } else {
            PortType::U64
        };
        spread(c, internal, outs, targets.drop_last()).bind_node(
            targets.last(),
            KindV::Identity(ty),
            seq![WireV::Node(internal, i as nat)],
        )
    }
}

/// The binding of one or more names to a node.
pub open spec fn placed(
    c: CompilerV,
    targets: Seq<Seq<char>>,
    b: BuiltV,
    wires: Seq<WireV>,
) -> CompilerV {
    if targets.len() == 1 {
        c.bind_node(targets[0], KindV::Built(b), wires)
    } else {
        let internal = "__destruct_"@ + chars::decimal(c.handed.len());
        spread(
            c.took(internal).node(internal, KindV::Built(b), wires),
            internal,
            b.outs,
            targets,
        )
    }
}

/// A text turned into a handle by a resolver.
pub open spec fn resolved<T: Toolbox>(
    t: T,
    c: CompilerV,
    resolver: DefaultResolver,
    w: WireV,
) -> (CompilerV, Result<WireV, Seq<char>>) {
    let (func, consts) = match resolver {
        DefaultResolver::Facet(f) => ("dataset_open"@, seq![ConstV::Str(f@)]),
        DefaultResolver::Group => ("dataset_group_open"@, Seq::<ConstV>::empty()),
    };
    match t.built(None, func, seq![w], seq![PortType::Str], consts) {
        Err(e) => (c, Err(e)),
        Ok(b) => (
            c.anon_node(KindV::Built(b), seq![w]),
            Ok(WireV::Node(c.anon(), 0)),
        ),
    }
}

/// The wires of a call after every text that feeds a handle was turned into
/// one.
pub open spec fn promoted<T: Toolbox>(
    t: T,
    c: CompilerV,
    resolver: Option<DefaultResolver>,
    ins: Seq<PortType>,
    wires: Seq<WireV>,
) -> (CompilerV, Result<Seq<WireV>, Seq<char>>)
    decreases wires.len(),
{
    if wires.len() == 0 {
        (c, Ok(Seq::empty()))
    } else {
        let (c1, front) = promoted(t, c, resolver, ins, wires.drop_last());
        match front {
            Err(e) => (c1, Err(e)),
            Ok(done) => {
                let i = wires.len() - 1;
                let w = wires.last();
                if resolver is Some && i < ins.len() && ins[i] == PortType::Handle
                    && c1.graph.wire_type(w) == Some(PortType::Str) {
                    let (c2, r) = resolved(t, c1, resolver->Some_0, w);
                    match r {
                        Err(e) => (c2, Err(e)),
                        Ok(h) => (c2, Ok(done.push(h))),
                    }
                } else {
                    (c1, Ok(done.push(w)))
                }
            },
        }
    }
}

/// The resolver of a function.
pub open spec fn resolver_of(sig: Option<FuncSig>) -> Option<DefaultResolver> {
    match sig {
        Some(s) => s.default_resolver,
        None => None,
    }
}

/// The end of a call, once its arguments are known.
pub open spec fn concluded<T: Toolbox>(
    t: T,
    c: CompilerV,
    targets: Seq<Seq<char>>,
    func: Seq<char>,
    args: Seq<ArgV>,
    wires: Seq<WireV>,
    consts: Seq<ConstV>,
) -> Step {
    let types = assembly::wire_types(c.graph, wires);
    match t.built(Some(targets[0]), func, wires, types, consts) {
        Err(e) => if chars::occurs(e, "unknown function"@) {
            let (c2, r) = t.inlined(c, func, args, targets);
            match r {
                Err(e2) => (c2, Err(e2)),
                Ok(true) => (c2, Ok(())),
                Ok(false) => (c2, Err(e)),
            }
        } else {
            (c, Err(e))
        },
        Ok(b) => {
            let (c2, r) = promoted(t, c, resolver_of(t.signature(func)), b.ins, wires);
            match r {
                Err(e) => (c2, Err(e)),
                Ok(fed) => (placed(c2, targets, b, fed), Ok(())),
            }
        },
    }
}

/// Lowers a binding. What is made up for it is named after its first name.
pub open spec fn bound<T: Toolbox>(
    t: T,
    c: CompilerV,
    targets: Seq<Seq<char>>,
    e: ExprV,
) -> Step
    decreases weight(e), 10nat,
{
    let inner = CompilerV {
        current: if targets.len() > 0 {
            Some(targets[0])
        } else {
            c.current
        },
        ..c
    };
    let (after, r) = lowered(t, inner, targets, e);
    (CompilerV { current: c.current, ..after }, r)
}

/// Lowers the value of a binding.
pub open spec fn lowered<T: Toolbox>(
    t: T,
    c: CompilerV,
    targets: Seq<Seq<char>>,
    e: ExprV,
) -> Step
    decreases weight(e), 9nat,
{
    let name = targets[0];
    match e {
        ExprV::Call(func, args, span) => lowered_call(t, c, targets, func, args, span),
        ExprV::StringLit(s, _) => (text_bound(c, name, s), Ok(())),
        ExprV::Ident(id, _) => (aliased(c, name, id), Ok(())),
        ExprV::IntLit(v, _) => (c.bind_node(name, KindV::ConstU64(v), Seq::empty()), Ok(())),
        ExprV::FloatLit(x, _, _) => (
            c.bind_node(name, KindV::ConstF64(x), Seq::empty()),
            Ok(()),
        ),
        ExprV::BinOp(l, op, r) => lowered_operator(t, c, name, *l, op, *r),
        ExprV::UnaryNeg(x, _) => lowered_negation(t, c, name, *x),
        ExprV::UnaryBitNot(x, _) => lowered_complement(t, c, name, *x),
        ExprV::FieldAccess(source, field, _) => {
            let wire = compiler::field_wire(source, field);
            let ty = or_integer(c.graph.output_type(wire));
            (
                c.bind_node(
                    name,
                    KindV::PortPassthrough(name, ty),
                    seq![WireV::Node(wire, 0)],
                ),
                Ok(()),
            )
        },
        ExprV::ArrayLit(elems, _) => (
            c.bind_node(name, KindV::ConstStr(list_text(elems)), Seq::empty()),
            Ok(()),
        ),
        ExprV::Cast(x, to, _) => lowered_cast(t, c, name, *x, to),
    }
}

/// Lowers a call.
pub open spec fn lowered_call<T: Toolbox>(
    t: T,
    c: CompilerV,
    targets: Seq<Seq<char>>,
    func: Seq<char>,
    args: Seq<ArgV>,
    span: Span,
) -> Step
    decreases weight(ExprV::Call(func, args, span)), 8nat,
{
    if func == "if"@ {
        if args.len() != 3 {
            (
                c,
                Err(
                    "if("@ + targets[0] + "): expected 3 arguments (cond, a, b), got "@
                        + chars::decimal(args.len()),
                ),
            )
        } else {
            proof {
                lemma_selection_weight(t, c, args, span);
            }
            bound(t, c, targets, selection(t, c, args, span))
        }
    } else {
        let sig = t.signature(func);
        let (c1, r) = arguments(t, c, slots_of(sig), takes_wires(sig), args);
        match r {
            Err(e) => (c1, Err(e)),
            Ok((wires, consts)) => concluded(t, c1, targets, func, args, wires, consts),
        }
    }
}

/// Lowers the arguments of a call, from left to right.
pub open spec fn arguments<T: Toolbox>(
    t: T,
    c: CompilerV,
    slots: Seq<SlotType>,
    variadic: bool,
    args: Seq<ArgV>,
) -> (CompilerV, Result<(Seq<WireV>, Seq<ConstV>), Seq<char>>)
    decreases args_weight(args), 20nat,
{
    if args.len() == 0 {
        (c, Ok((Seq::empty(), Seq::empty())))
    } else {
        proof {
            lemma_weight_positive(args.last().value);
        }
        let (c1, front) = arguments(t, c, slots, variadic, args.drop_last());
        match front {
            Err(e) => (c1, Err(e)),
            Ok((wires, consts)) => {
                let wanted = wants_wire(slots, variadic, args.len() - 1);
                let (c2, r) = argument(t, c1, wanted, args.last().value);
                match r {
                    Err(e) => (c2, Err(e)),
                    Ok(ItemV::Wire(w)) => (c2, Ok((wires.push(w), consts))),
                    Ok(ItemV::Const(k)) => (c2, Ok((wires, consts.push(k)))),
                }
            },
        }
    }
}

/// Lowers an expression to a wire of a made-up name.
pub open spec fn intermediate<T: Toolbox>(t: T, c: CompilerV, e: ExprV) -> (
    CompilerV,
    Result<WireV, Seq<char>>,
)
    decreases weight(e), 11nat,
{
    let (c1, r) = bound(t, c.took(c.anon()), seq![c.anon()], e);
    match r {
        Err(m) => (c1, Err(m)),
        Ok(_) => (c1, Ok(WireV::Node(c.anon(), 0))),
    }
}

/// Lowers an argument.
pub open spec fn argument<T: Toolbox>(t: T, c: CompilerV, wanted: bool, e: ExprV) -> (
    CompilerV,
    Result<ItemV, Seq<char>>,
)
    decreases weight(e), 12nat,
{
    match e {
        ExprV::Ident(id, _) => (c, Ok(ItemV::Wire(c.wire_of(id)))),
        ExprV::IntLit(v, _) => literal(c, wanted, KindV::ConstU64(v), ConstV::Int(v)),
        ExprV::FloatLit(x, _, _) => literal(c, wanted, KindV::ConstF64(x), ConstV::Float(x)),
        ExprV::StringLit(s, _) => literal(c, wanted, KindV::ConstStr(s), ConstV::Str(s)),
        ExprV::ArrayLit(elems, _) => (
            c,
            Ok(ItemV::Const(ConstV::FloatArray(doubles_of(elems)))),
        ),
        ExprV::FieldAccess(source, field, _) => (
            c,
            Ok(ItemV::Wire(WireV::Node(compiler::field_wire(source, field), 0))),
        ),
        ExprV::UnaryNeg(x, _) => match *x {
            ExprV::FloatLit(v, _, _) => literal(
                c,
                wanted,
                KindV::ConstF64(v.negated()),
                ConstV::Float(v.negated()),
            ),
            ExprV::IntLit(v, _) => {
                let d = Float64 { bits: float::int_bits(v as int) };
                literal(c, wanted, KindV::ConstF64(d.negated()), ConstV::Float(d.negated()))
            },
            _ => {
                let (c1, r) = intermediate(t, c, e);
                match r {
                    Err(m) => (c1, Err(m)),
                    Ok(w) => (c1, Ok(ItemV::Wire(w))),
                }
            },
        },
        _ => {
            let (c1, r) = intermediate(t, c, e);
            match r {
                Err(m) => (c1, Err(m)),
                Ok(w) => (c1, Ok(ItemV::Wire(w))),
            }
        },
    }
}

/// Lowers an operand.
pub open spec fn operand<T: Toolbox>(t: T, c: CompilerV, e: ExprV) -> (
    CompilerV,
    Result<WireV, Seq<char>>,
)
    decreases weight(e), 12nat,
{
    match e {
        ExprV::Ident(id, _) => (c, Ok(c.wire_of(id))),
        ExprV::FieldAccess(source, field, _) => (
            c,
            Ok(WireV::Node(compiler::field_wire(source, field), 0)),
        ),
        ExprV::IntLit(v, _) => (
            c.anon_node(KindV::ConstU64(v), Seq::empty()),
            Ok(WireV::Node(c.anon(), 0)),
        ),
        ExprV::FloatLit(x, _, _) => (
            c.anon_node(KindV::ConstF64(x), Seq::empty()),
            Ok(WireV::Node(c.anon(), 0)),
        ),
        _ => intermediate(t, c, e),
    }
}

/// Lowers a run of operands, from left to right.
pub open spec fn operands<T: Toolbox>(t: T, c: CompilerV, s: Seq<ExprV>) -> (
    CompilerV,
    Result<Seq<WireV>, Seq<char>>,
)
    decreases exprs_weight(s), 20nat,
{
    if s.len() == 0 {
        (c, Ok(Seq::empty()))
    } else {
        proof {
            lemma_weight_positive(s.last());
        }
        let (c1, front) = operands(t, c, s.drop_last());
        match front {
            Err(e) => (c1, Err(e)),
            Ok(wires) => {
                let (c2, r) = operand(t, c1, s.last());
                match r {
                    Err(e) => (c2, Err(e)),
                    Ok(w) => (c2, Ok(wires.push(w))),
                }
            },
        }
    }
}

/// Lowers an operator.
pub open spec fn lowered_operator<T: Toolbox>(
    t: T,
    c: CompilerV,
    name: Seq<char>,
    l: ExprV,
    op: BinOpKind,
    r: ExprV,
) -> Step
    decreases weight(ExprV::BinOp(Box::new(l), op, Box::new(r))), 8nat,
{
    let lt = inferred(t, c, l);
    let rt = inferred(t, c, r);
    if op == BinOpKind::Add && (lt == PortType::Str || rt == PortType::Str) {
        proof {
            lemma_summands_weight(l);
            lemma_summands_weight(r);
            lemma_exprs_weight_add(summands(l), summands(r));
        }
        let (c1, ws) = operands(t, c, summands(l) + summands(r));
        match ws {
            Err(e) => (c1, Err(e)),
            Ok(wires) => made(
                t,
                c1,
                name,
                "str_concat"@,
                wires,
                assembly::wire_types(c1.graph, wires),
            ),
        }
    } else {
        let logical = op == BinOpKind::And || op == BinOpKind::Or;
        let left = if logical {
            truth(l)
        } else {
            l
        };
        let right = if logical {
            truth(r)
        } else {
            r
        };
        match operation(op, lt, rt) {
            Err(e) => (c, Err(e)),
            Ok((func, widen_l, widen_r)) => {
                proof {
                    lemma_truth_weight(l);
                    lemma_truth_weight(r);
                }
                let (c1, wl) = operand(t, c, left);
                match wl {
                    Err(e) => (c1, Err(e)),
                    Ok(a) => {
                        let (c2, wr) = operand(t, c1, right);
                        match wr {
                            Err(e) => (c2, Err(e)),
                            Ok(b) => {
                                let (c3, fa) = widened(c2, a, widen_l);
                                let (c4, fb) = widened(c3, b, widen_r);
                                let wires = seq![fa, fb];
                                let types = if logical {
                                    seq![PortType::U64, PortType::U64]
                                } else {
                                    assembly::wire_types(c4.graph, wires)
                                };
                                made(t, c4, name, func, wires, types)
                            },
                        }
                    },
                }
            },
        }
    }
}

/// Lowers a negation: the difference from zero.
pub open spec fn lowered_negation<T: Toolbox>(
    t: T,
    c: CompilerV,
    name: Seq<char>,
    x: ExprV,
) -> Step
    decreases weight(x) + 1, 8nat,
{
    let zero = WireV::Node(c.anon(), 0);
    let c1 = c.anon_node(KindV::ConstF64(Float64 { bits: 0 }), Seq::empty());
    let (c2, r) = intermediate(t, c1, x);
    match r {
        Err(e) => (c2, Err(e)),
        Ok(w) => made(
            t,
            c2,
            name,
            "f64_sub"@,
            seq![zero, w],
            assembly::wire_types(c2.graph, seq![zero, w]),
        ),
    }
}

/// Lowers a complement.
pub open spec fn lowered_complement<T: Toolbox>(
    t: T,
    c: CompilerV,
    name: Seq<char>,
    x: ExprV,
) -> Step
    decreases weight(x) + 1, 8nat,
{
    let (c1, r) = intermediate(t, c, x);
    match r {
        Err(e) => (c1, Err(e)),
        Ok(w) => made(
            t,
            c1,
            name,
            "u64_not"@,
            seq![w],
            assembly::wire_types(c1.graph, seq![w]),
        ),
    }
}

/// Lowers a cast.
pub open spec fn lowered_cast<T: Toolbox>(
    t: T,
    c: CompilerV,
    name: Seq<char>,
    x: ExprV,
    to: PortType,
) -> Step
    decreases weight(x) + 1, 8nat,
{
    let from = inferred(t, c, x);
    let (c1, r) = operand(t, c, x);
    match r {
        Err(e) => (c1, Err(e)),
        Ok(w) => match fusion(name, from, to) {
            Err(e) => (c1, Err(e)),
            Ok(kind) => (c1.bind_node(name, kind, seq![w]), Ok(())),
        },
    }
}

// ---------------------------------------------------------------------
// Lowering
// ---------------------------------------------------------------------

/// What an argument came to.
enum Item {
    Wire(WireRef),
    Const(ConstArg),
}

/// The content of the outcome of an argument.
spec fn item_view(r: Result<Item, String>) -> Result<ItemV, Seq<char>> {
    match r {
        Ok(Item::Wire(w)) => Ok(ItemV::Wire(w@)),
        Ok(Item::Const(k)) => Ok(ItemV::Const(k@)),
        Err(e) => Err(e@),
    }
}

/// The content of the outcome of an operand.
pub open spec fn wire_outcome(r: Result<WireRef, String>) -> Result<WireV, Seq<char>> {
    match r {
        Ok(w) => Ok(w@),
        Err(e) => Err(e@),
    }
}

/// The content of the outcome of a run of operands.
pub open spec fn wires_outcome(r: Result<Vec<WireRef>, String>) -> Result<
    Seq<WireV>,
    Seq<char>,
> {
    match r {
        Ok(w) => Ok(assembly::wire_views(w@)),
        Err(e) => Err(e@),
    }
}

/// The content of the outcome of the arguments of a call.
pub open spec fn args_outcome(r: Result<(Vec<WireRef>, Vec<ConstArg>), String>) -> Result<
    (Seq<WireV>, Seq<ConstV>),
    Seq<char>,
> {
    match r {
        Ok((w, k)) => Ok((assembly::wire_views(w@), factory::const_views(k@))),
        Err(e) => Err(e@),
    }
}

/// A run of arguments that stops in the middle stops so as a whole.
proof fn lemma_arguments_stop<T: Toolbox>(
    t: T,
    c: CompilerV,
    slots: Seq<SlotType>,
    variadic: bool,
    args: Seq<ArgV>,
    k: int,
)
    requires
        0 <= k <= args.len(),
        arguments(t, c, slots, variadic, args.take(k)).1 is Err,
    ensures
        arguments(t, c, slots, variadic, args) == arguments(t, c, slots, variadic, args.take(k)),
    decreases args.len() - k,
{
    if k == args.len() {
        assert(args.take(k) =~= args);
    } else {
        assert(args.take(k + 1).drop_last() =~= args.take(k));
        lemma_arguments_stop(t, c, slots, variadic, args, k + 1);
    }
}

/// A run of operands that stops in the middle stops so as a whole.
proof fn lemma_operands_stop<T: Toolbox>(t: T, c: CompilerV, s: Seq<ExprV>, k: int)
    requires
        0 <= k <= s.len(),
        operands(t, c, s.take(k)).1 is Err,
    ensures
        operands(t, c, s) == operands(t, c, s.take(k)),
    decreases s.len() - k,
{
    if k == s.len() {
        assert(s.take(k) =~= s);
    } else {
        assert(s.take(k + 1).drop_last() =~= s.take(k));
        lemma_operands_stop(t, c, s, k + 1);
    }
}

/// A run of wires whose promotion stops in the middle stops so as a whole.
proof fn lemma_promoted_stop<T: Toolbox>(
    t: T,
    c: CompilerV,
    resolver: Option<DefaultResolver>,
    ins: Seq<PortType>,
    wires: Seq<WireV>,
    k: int,
)
    requires
        0 <= k <= wires.len(),
        promoted(t, c, resolver, ins, wires.take(k)).1 is Err,
    ensures
        promoted(t, c, resolver, ins, wires) == promoted(t, c, resolver, ins, wires.take(k)),
    decreases wires.len() - k,
{
    if k == wires.len() {
        assert(wires.take(k) =~= wires);
    } else {
        assert(wires.take(k + 1).drop_last() =~= wires.take(k));
        lemma_promoted_stop(t, c, resolver, ins, wires, k + 1);
    }
}

/// The measure of an argument is within that of the run it stands in.
proof fn lemma_arg_weight(args: Seq<ArgV>, i: int)
    requires
        0 <= i < args.len(),
    ensures
        weight(args[i].value) <= args_weight(args),
    decreases args.len(),
{
    if i < args.len() - 1 {
        lemma_arg_weight(args.drop_last(), i);
    }
}

/// The measure of an expression is within that of the run it stands in.
proof fn lemma_expr_weight(s: Seq<ExprV>, i: int)
    requires
        0 <= i < s.len(),
    ensures
        weight(s[i]) <= exprs_weight(s),
    decreases s.len(),
{
    if i < s.len() - 1 {
        lemma_expr_weight(s.drop_last(), i);
    }
}

/// The slots of a function, by position, and whether it takes any number of
/// wires.
fn read_slots(sig: Option<&FuncSig>) -> (r: (Vec<SlotType>, bool))
    ensures
        match sig {
            Some(s) => r.0@ == slots_of(Some(*s)) && r.1 == takes_wires(Some(*s)),
            None => r.0@ == slots_of(None) && !r.1,
        },
{
    let mut out: Vec<SlotType> = Vec::new();
    match sig {
        Some(s) => {
            let mut i: usize = 0;
            let ghost all = slots_of(Some(*s));
            while i < s.params.len()
                invariant
                    i <= s.params@.len(),
                    out@.len() == i,
                    all == slots_of(Some(*s)),
                    forall|k: int| 0 <= k < i ==> out@[k] == all[k],
                decreases s.params.len() - i,
            {
                out.push(s.params[i].slot_type);
                i = i + 1;
            }
            assert(out@ =~= all);
            let variadic: bool = match s.arity {
                Arity::VariadicWires { .. } => true,
                _ => false,
            };
            (out, variadic)
        },
        None => {
            assert(out@ =~= slots_of(None));
            (out, false)
        },
    }
}

/// The function of an operator, and which operand is widened.
fn choose_operation(op: BinOpKind, lt: PortType, rt: PortType) -> (r: Result<
    (&'static str, bool, bool),
    String,
>)
    ensures
        match r {
            Ok((f, a, b)) => operation(op, lt, rt) == Ok::<(Seq<char>, bool, bool), Seq<char>>(
                (f@, a, b),
            ),
            Err(e) => operation(op, lt, rt) == Err::<(Seq<char>, bool, bool), Seq<char>>(e@),
        },
{
    let li: bool = lt == PortType::U64;
    let ri: bool = rt == PortType::U64;
    let ints: bool = li && ri;
    let text: bool = lt == PortType::Str || rt == PortType::Str;
    let double: bool = !text && (lt == PortType::F64 || rt == PortType::F64);
    match op {
        BinOpKind::Add => arithmetic(ints, "u64_add", "f64_add", li, ri),
        BinOpKind::Sub => arithmetic(ints, "u64_sub", "f64_sub", li, ri),
        BinOpKind::Mul => arithmetic(ints, "u64_mul", "f64_mul", li, ri),
        BinOpKind::Div => arithmetic(ints, "u64_div", "f64_div", li, ri),
        BinOpKind::Mod => arithmetic(ints, "u64_mod", "f64_mod", li, ri),
        BinOpKind::Pow => Ok(("pow", li, ri)),
        BinOpKind::BitAnd => Ok(("u64_and", false, false)),
        BinOpKind::BitOr => Ok(("u64_or", false, false)),
        BinOpKind::BitXor => Ok(("u64_xor", false, false)),
        BinOpKind::Shl => Ok(("u64_shl", false, false)),
        BinOpKind::Shr => Ok(("u64_shr", false, false)),
        BinOpKind::Eq => if text {
            Ok(("str_eq", false, false))
        } else {
            arithmetic(!double, "u64_eq", "f64_eq", li, ri)
        },
        BinOpKind::Ne => if text {
            Ok(("str_ne", false, false))
        } else {
            arithmetic(!double, "u64_ne", "f64_ne", li, ri)
        },
        BinOpKind::Lt => if text {
            Err(say_unordered("<"))
        } else {
            arithmetic(!double, "u64_lt", "f64_lt", li, ri)
        },
        BinOpKind::Gt => if text {
            Err(say_unordered(">"))
        } else {
            arithmetic(!double, "u64_gt", "f64_gt", li, ri)
        },
        BinOpKind::Le => if text {
            Err(say_unordered("<="))
        } else {
            arithmetic(!double, "u64_le", "f64_le", li, ri)
        },
        BinOpKind::Ge => if text {
            Err(say_unordered(">="))
        } else {
            arithmetic(!double, "u64_ge", "f64_ge", li, ri)
        },
        BinOpKind::And => Ok(("u64_and", false, false)),
        BinOpKind::Or => Ok(("u64_or", false, false)),
    }
}

/// The integer form of an operation, or the double form.
fn arithmetic(
    ints: bool,
    integer: &'static str,
    double: &'static str,
    li: bool,
    ri: bool,
) -> (r: Result<(&'static str, bool, bool), String>)
    ensures
        r is Ok,
        r->Ok_0.0@ == if ints {
            integer@
        } else {
            double@
        },
        r->Ok_0.1 == (!ints && li),
        r->Ok_0.2 == (!ints && ri),
{
    if ints {
        Ok((integer, false, false))
    } else {
        Ok((double, li, ri))
    }
}

/// Why texts are not ordered by `symbol`.
fn say_unordered(symbol: &str) -> (r: String)
    ensures
        r@ == unordered(symbol@),
{
    let mut out: String = "comparison operator `".to_owned();
    out.append(symbol);
    out.append(
        "` is not supported for String operands; only `==` and `!=` are defined on strings. Compare string values for equality, or convert to a numeric type for ordering comparisons.",
    );
    out
}

/// What turns a value of the type `from` into one of the type `to`.
fn choose_fusion(name: &str, from: PortType, to: PortType) -> (r: Result<NodeKind, String>)
    ensures
        match r {
            Ok(k) => fusion(name@, from, to) == Ok::<KindV, Seq<char>>(k@),
            Err(e) => fusion(name@, from, to) == Err::<KindV, Seq<char>>(e@),
        },
{
    if from == to {
        Ok(NodeKind::PortPassthrough(name.to_owned(), to))
    } else if from == PortType::U64 && to == PortType::F64 {
        Ok(NodeKind::ToF64)
    } else if from == PortType::Str && to == PortType::U64 {
        Ok(NodeKind::StrToU64)
    } else if from == PortType::F64 && to == PortType::U64 {
        Err(
            "`as u64`: narrowing f64 → u64 is not allowed under `as` — it loses precision and the rounding is ambiguous. Choose explicitly: `f64_to_u64(x)` (truncate), `round_to_u64(x)`, `floor_to_u64(x)`, or `ceil_to_u64(x)`. `as` performs only widening / alignment fusion (SRD-84 Part 1b).".to_owned(),
        )
    } else {
        let mut out: String = "`as ".to_owned();
        out.append(to.name());
        out.append("`: no type-fusion from ");
        out.append(from.name());
        out.append(" to ");
        out.append(to.name());
        out.append(" is defined (SRD-84 Part 1b)");
        Err(out)
    }
}

/// The call of a selection.
fn build_selection<T: Toolbox>(tools: &T, c: &Compiler, args: &Vec<Arg>, span: Span) -> (r: Expr)
    requires
        args@.len() == 3,
    ensures
        r@ == selection(*tools, c@, ast::arg_views(args@), span),
{
    proof {
        ast::lemma_arg_views(args@);
    }
    let a: &Expr = args[1].value();
    let b: &Expr = args[2].value();
    let at: PortType = infer_expr_type(tools, c, a);
    let bt: PortType = infer_expr_type(tools, c, b);
    let text: bool = at == PortType::Str || bt == PortType::Str;
    let double: bool = !text && (at == PortType::F64 || bt == PortType::F64);
    let wa: Expr = if double && at == PortType::U64 {
        wrap_to_f64(a.copy())
    } else {
        a.copy()
    };
    let wb: Expr = if double && bt == PortType::U64 {
        wrap_to_f64(b.copy())
    } else {
        b.copy()
    };
    let func: &str = if text {
        "select_str"
    } else if double {
        "select_f64"
    } else {
        "select_u64"
    };
    let ghost shown = seq![
        args@[0]@,
        ArgV { name: None, value: wa@ },
        ArgV { name: None, value: wb@ },
    ];
    let mut list: Vec<Arg> = Vec::new();
    list.push(args[0].copy());
    list.push(Arg::Positional(wa));
    list.push(Arg::Positional(wb));
    proof {
        ast::lemma_arg_views(list@);
        assert(ast::arg_views(list@) =~= shown);
    }
    Expr::Call(CallExpr { func: func.to_owned(), args: list, span })
}

/// The comparison of `e` with zero.
fn build_truth(e: &Expr) -> (r: Expr)
    ensures
        r@ == truth(e@),
{
    let span: Span = expr_span(e);
    let zero: Expr = Expr::IntLit(0, span);
    assert(zero@ == ExprV::IntLit(0, span));
    Expr::BinOp(Box::new(e.copy()), BinOpKind::Ne, Box::new(zero))
}

impl Compiler {
    /// Lowers a binding of `targets` to `value`.
    pub fn compile_binding<T: Toolbox>(
        &mut self,
        tools: &T,
        targets: &Vec<String>,
        value: &Expr,
    ) -> (r: Result<(), String>)
        requires
            targets@.len() > 0,
        ensures
            (final(self)@, compiler::told(r)) == bound(
                *tools,
                old(self)@,
                chars::texts(targets@),
                value@,
            ),
        decreases weight(value@), 10nat,
    {
        let prior: Option<String> = match &self.current_binding {
            Some(s) => Some(s.clone()),
            None => None,
        };
        self.current_binding = Some(targets[0].clone());
        let r: Result<(), String> = self.compile_binding_inner(tools, targets, value);
        self.current_binding = prior;
        r
    }

    /// Lowers the value of a binding.
    fn compile_binding_inner<T: Toolbox>(
        &mut self,
        tools: &T,
        targets: &Vec<String>,
        value: &Expr,
    ) -> (r: Result<(), String>)
        requires
            targets@.len() > 0,
        ensures
            (final(self)@, compiler::told(r)) == lowered(
                *tools,
                old(self)@,
                chars::texts(targets@),
                value@,
            ),
        decreases weight(value@), 9nat,
    {
        let name: &str = targets[0].as_str();
        assert(name@ == chars::texts(targets@)[0]);
        match value {
            Expr::Call(call) => self.compile_call(tools, targets, call),
            Expr::StringLit(s, _) => {
                self.compile_text(name, s.as_str());
                Ok(())
            },
            Expr::Ident(id, _) => {
                self.compile_alias(name, id.as_str());
                Ok(())
            },
            Expr::IntLit(v, _) => {
                self.add_binding(name, NodeKind::ConstU64(*v), compiler::no_wires());
                Ok(())
            },
            Expr::FloatLit(x, _) => {
                self.add_binding(name, NodeKind::ConstF64(x.value), compiler::no_wires());
                Ok(())
            },
            Expr::BinOp(l, op, r) => self.compile_operator(tools, name, l, *op, r),
            Expr::UnaryNeg(x, _) => self.compile_negation(tools, name, x),
            Expr::UnaryBitNot(x, _) => self.compile_complement(tools, name, x),
            Expr::FieldAccess { source, field, .. } => {
                let wire: String = compiler::field_name(source.as_str(), field.as_str());
                let ty: PortType = match self.graph.output_type(wire.as_str()) {
                    Some(t) => t,
                    None => PortType::U64,
                };
                self.add_binding(
                    name,
                    NodeKind::PortPassthrough(name.to_owned(), ty),
                    compiler::one_wire(WireRef::node(wire.as_str())),
                );
                Ok(())
            },
            Expr::ArrayLit(elems, _) => {
                let text: String = render_list_literal(elems);
                self.add_binding(name, NodeKind::ConstStr(text), compiler::no_wires());
                Ok(())
            },
            Expr::Cast(x, to, _) => self.compile_cast(tools, name, x, *to),
        }
    }

    /// Binds `name` to the text `s`.
    fn compile_text(&mut self, name: &str, s: &str)
        ensures
            final(self)@ == text_bound(old(self)@, name@, s@),
    {
        if has_char(s, '{') && has_char(s, '}') && string_lit_has_real_placeholder(s) {
            let text: Vec<char> = chars::chars_of(s);
            let names: Vec<String> = collect_bind_names(&text);
            let format: String = build_format(&text);
            let ghost shown = bind_names(bodies(s@, 0));
            let mut wires: Vec<WireRef> = Vec::new();
            let mut i: usize = 0;
            let ghost c = self@;
            while i < names.len()
                invariant
                    i <= names@.len(),
                    wires@.len() == i,
                    chars::texts(names@) == shown,
                    c == self@,
                    forall|k: int| 0 <= k < i ==> (#[trigger] wires@[k])@ == c.wire_of(shown[k]),
                decreases names.len() - i,
            {
                assert(shown[i as int] == names@[i as int]@);
                wires.push(self.wire_of(names[i].as_str()));
                i = i + 1;
            }
            assert(shown.len() == names@.len());
            assert(assembly::wire_views(wires@) =~= Seq::new(
                shown.len(),
                |k: int| c.wire_of(shown[k]),
            ));
            self.add_binding(name, NodeKind::Printf(format, names.len()), wires);
        } else {
            self.add_binding(name, NodeKind::ConstStr(s.to_owned()), compiler::no_wires());
        }
    }

    /// Binds `name` to what `id` stands for.
    fn compile_alias(&mut self, name: &str, id: &str)
        ensures
            final(self)@ == aliased(old(self)@, name@, id@),
    {
        let wire: WireRef = self.wire_of(id);
        let ty: PortType = match self.graph.wire_type(&wire) {
            Some(t) => t,
            None => PortType::U64,
        };
        if ty == PortType::U64 {
            self.add_binding(name, NodeKind::Identity(PortType::U64), compiler::one_wire(wire));
        } else {
            self.add_binding(
                name,
                NodeKind::PortPassthrough(name.to_owned(), ty),
                compiler::one_wire(wire),
            );
        }
    }

    /// Lowers a call.
    fn compile_call<T: Toolbox>(
        &mut self,
        tools: &T,
        targets: &Vec<String>,
        call: &CallExpr,
    ) -> (r: Result<(), String>)
        requires
            targets@.len() > 0,
        ensures
            (final(self)@, compiler::told(r)) == lowered_call(
                *tools,
                old(self)@,
                chars::texts(targets@),
                call.func@,
                ast::arg_views(call.args@),
                call.span,
            ),
        decreases weight(ExprV::Call(call.func@, ast::arg_views(call.args@), call.span)), 8nat,
    {
        proof {
            ast::lemma_arg_views(call.args@);
            assert(chars::texts(targets@)[0] == targets@[0]@);
        }
        if *call.func.as_str() == *"if" {
            if call.args.len() != 3 {
                let mut m: String = "if(".to_owned();
                m.append(targets[0].as_str());
                m.append("): expected 3 arguments (cond, a, b), got ");
                m.append(chars::usize_text(call.args.len()).as_str());
                return Err(m);
            }
            let chosen: Expr = build_selection(tools, self, &call.args, call.span);
            proof {
                lemma_selection_weight(*tools, self@, ast::arg_views(call.args@), call.span);
            }
            return self.compile_binding(tools, targets, &chosen);
        }
        let (slots, variadic) = read_slots(tools.lookup(call.func.as_str()));
        match self.compile_arguments(tools, &slots, variadic, &call.args) {
            Err(e) => Err(e),
            Ok((wires, consts)) => self.conclude_call(
                tools,
                targets,
                call.func.as_str(),
                &call.args,
                wires,
                consts,
            ),
        }
    }

    /// Lowers the arguments of a call, from left to right.
    fn compile_arguments<T: Toolbox>(
        &mut self,
        tools: &T,
        slots: &Vec<SlotType>,
        variadic: bool,
        args: &Vec<Arg>,
    ) -> (r: Result<(Vec<WireRef>, Vec<ConstArg>), String>)
        ensures
            (final(self)@, args_outcome(r)) == arguments(
                *tools,
                old(self)@,
                slots@,
                variadic,
                ast::arg_views(args@),
            ),
        decreases args_weight(ast::arg_views(args@)), 20nat,
    {
        let ghost all = ast::arg_views(args@);
        let ghost start = self@;
        proof {
            ast::lemma_arg_views(args@);
            assert(all.take(0) =~= Seq::<ArgV>::empty());
        }
        let mut wires: Vec<WireRef> = Vec::new();
        let mut consts: Vec<ConstArg> = Vec::new();
        assert(assembly::wire_views(wires@) =~= Seq::<WireV>::empty());
        assert(factory::const_views(consts@) =~= Seq::<ConstV>::empty());
        let mut i: usize = 0;
        while i < args.len()
            invariant
                i <= args@.len(),
                all == ast::arg_views(args@),
                all.len() == args@.len(),
                start == old(self)@,
                forall|k: int| 0 <= k < args@.len() ==> #[trigger] all[k] == args@[k]@,
                arguments(*tools, start, slots@, variadic, all.take(i as int)) == (
                    self@,
                    Ok::<(Seq<WireV>, Seq<ConstV>), Seq<char>>(
                        (assembly::wire_views(wires@), factory::const_views(consts@)),
                    ),
                ),
            decreases args.len() - i,
        {
            proof {
                assert(all.take(i + 1).drop_last() =~= all.take(i as int));
                assert(all.take(i + 1).last() == all[i as int]);
                lemma_arg_weight(all, i as int);
            }
            let wanted: bool = if i < slots.len() {
                slots[i].is_wire()
            } else {
                variadic
            };
            let ghost w0 = wires@;
            let ghost k0 = consts@;
            match self.compile_argument(tools, wanted, args[i].value()) {
                Err(e) => {
                    proof {
                        lemma_arguments_stop(*tools, start, slots@, variadic, all, i + 1);
                    }
                    return Err(e);
                },
                Ok(Item::Wire(w)) => {
                    let ghost shown = w@;
                    wires.push(w);
                    assert(assembly::wire_views(wires@) =~= assembly::wire_views(w0).push(shown));
                },
                Ok(Item::Const(k)) => {
                    let ghost shown = k@;
                    consts.push(k);
                    assert(factory::const_views(consts@) =~= factory::const_views(k0).push(shown));
                },
            }
            i = i + 1;
        }
        assert(all.take(i as int) =~= all);
        Ok((wires, consts))
    }

    /// Lowers an expression to a wire of a made-up name.
    fn compile_intermediate<T: Toolbox>(&mut self, tools: &T, expr: &Expr) -> (r: Result<
        WireRef,
        String,
    >)
        ensures
            (final(self)@, wire_outcome(r)) == intermediate(*tools, old(self)@, expr@),
        decreases weight(expr@), 11nat,
    {
        let name: String = self.anon_name();
        let targets: Vec<String> = compiler::one_name(name.as_str());
        match self.compile_binding(tools, &targets, expr) {
            Err(e) => Err(e),
            Ok(_) => Ok(WireRef::node(name.as_str())),
        }
    }

    /// A literal as an argument.
    fn place_literal(&mut self, wanted: bool, kind: NodeKind, constant: ConstArg) -> (r: Item)
        ensures
            (final(self)@, item_view(Ok(r))) == literal(old(self)@, wanted, kind@, constant@),
    {
        if wanted {
            Item::Wire(self.add_anon(kind, compiler::no_wires()))
        } else {
            Item::Const(constant)
        }
    }

    /// Lowers an argument.
    fn compile_argument<T: Toolbox>(&mut self, tools: &T, wanted: bool, expr: &Expr) -> (r: Result<
        Item,
        String,
    >)
        ensures
            (final(self)@, item_view(r)) == argument(*tools, old(self)@, wanted, expr@),
        decreases weight(expr@), 12nat,
    {
        match expr {
            Expr::Ident(id, _) => {
                return Ok(Item::Wire(self.wire_of(id.as_str())));
            },
            Expr::IntLit(v, _) => {
                return Ok(
                    self.place_literal(wanted, NodeKind::ConstU64(*v), ConstArg::Int(*v)),
                );
            },
            Expr::FloatLit(x, _) => {
                return Ok(
                    self.place_literal(
                        wanted,
                        NodeKind::ConstF64(x.value),
                        ConstArg::Float(x.value),
                    ),
                );
            },
            Expr::StringLit(s, _) => {
                return Ok(
                    self.place_literal(
                        wanted,
                        NodeKind::ConstStr(s.clone()),
                        ConstArg::Str(s.clone()),
                    ),
                );
            },
            Expr::ArrayLit(elems, _) => {
                return Ok(Item::Const(ConstArg::FloatArray(read_doubles(elems))));
            },
            Expr::FieldAccess { source, field, .. } => {
                let wire: String = compiler::field_name(source.as_str(), field.as_str());
                return Ok(Item::Wire(WireRef::node(wire.as_str())));
            },
            Expr::UnaryNeg(inner, _) => {
                let plain: &Expr = inner;
                match plain {
                    Expr::FloatLit(x, _) => {
                        assert(plain@ is FloatLit && plain@->FloatLit_0 == x.value);
                        let v: Float64 = x.value.negate();
                        return Ok(
                            self.place_literal(wanted, NodeKind::ConstF64(v), ConstArg::Float(v)),
                        );
                    },
                    Expr::IntLit(n, at) => {
                        assert(plain@ == ExprV::IntLit(*n, *at));
                        let v: Float64 = Float64::from_u64(*n).negate();
                        return Ok(
                            self.place_literal(wanted, NodeKind::ConstF64(v), ConstArg::Float(v)),
                        );
                    },
                    _ => {},
                }
            },
            _ => {},
        }
        match self.compile_intermediate(tools, expr) {
            Err(e) => Err(e),
            Ok(w) => Ok(Item::Wire(w)),
        }
    }

    /// The end of a call, once its arguments are known.
    fn conclude_call<T: Toolbox>(
        &mut self,
        tools: &T,
        targets: &Vec<String>,
        func: &str,
        args: &Vec<Arg>,
        wires: Vec<WireRef>,
        consts: Vec<ConstArg>,
    ) -> (r: Result<(), String>)
        requires
            targets@.len() > 0,
        ensures
            (final(self)@, compiler::told(r)) == concluded(
                *tools,
                old(self)@,
                chars::texts(targets@),
                func@,
                ast::arg_views(args@),
                assembly::wire_views(wires@),
                factory::const_views(consts@),
            ),
    {
        assert(chars::texts(targets@)[0] == targets@[0]@);
        let types: Vec<PortType> = self.graph.wire_types(&wires);
        match tools.build_node(Some(targets[0].as_str()), func, &wires, &types, &consts) {
            Err(e) => {
                if chars::contains_text(e.as_str(), "unknown function") {
                    match tools.try_inline_module(self, func, args, targets) {
                        Err(e2) => Err(e2),
                        Ok(found) => if found {
                            Ok(())
                        } else {
                            Err(e)
                        },
                    }
                } else {
                    Err(e)
                }
            },
            Ok(node) => {
                let resolver: Option<DefaultResolver> = match tools.lookup(func) {
                    Some(sig) => sig.default_resolver,
                    None => None,
                };
                match self.auto_promote_handle_inputs(tools, resolver, &node.ins, wires) {
                    Err(e) => Err(e),
                    Ok(fed) => {
                        self.place_node(targets, node, fed);
                        Ok(())
                    },
                }
            },
        }
    }

    /// Turns every text that feeds a handle into one.
    fn auto_promote_handle_inputs<T: Toolbox>(
        &mut self,
        tools: &T,
        resolver: Option<DefaultResolver>,
        ins: &Vec<PortType>,
        wires: Vec<WireRef>,
    ) -> (r: Result<Vec<WireRef>, String>)
        ensures
            (final(self)@, wires_outcome(r)) == promoted(
                *tools,
                old(self)@,
                resolver,
                ins@,
                assembly::wire_views(wires@),
            ),
    {
        let ghost all = assembly::wire_views(wires@);
        let ghost start = self@;
        let mut out: Vec<WireRef> = Vec::new();
        let mut i: usize = 0;
        assert(all.take(0) =~= Seq::<WireV>::empty());
        assert(assembly::wire_views(out@) =~= Seq::<WireV>::empty());
        while i < wires.len()
            invariant
                i <= wires@.len(),
                all == assembly::wire_views(wires@),
                start == old(self)@,
                promoted(*tools, start, resolver, ins@, all.take(i as int)) == (
                    self@,
                    Ok::<Seq<WireV>, Seq<char>>(assembly::wire_views(out@)),
                ),
            decreases wires.len() - i,
        {
            proof {
                assert(all.take(i + 1).drop_last() =~= all.take(i as int));
                assert(all.take(i + 1).last() == wires@[i as int]@);
            }
            let ghost before = out@;
            let feeds: bool = i < ins.len() && ins[i] == PortType::Handle
                && self.graph.wire_type(&wires[i]) == Some(PortType::Str);
            let next: WireRef = match resolver {
                Some(rule) => if feeds {
                    match self.resolve_handle(tools, rule, &wires[i]) {
                        Err(e) => {
                            proof {
                                lemma_promoted_stop(*tools, start, resolver, ins@, all, i + 1);
                            }
                            return Err(e);
                        },
                        Ok(w) => w,
                    }
                } else {
                    wires[i].copy()
                },
                None => wires[i].copy(),
            };
            let ghost shown = next@;
            out.push(next);
            assert(assembly::wire_views(out@) =~= assembly::wire_views(before).push(shown));
            i = i + 1;
        }
        assert(all.take(i as int) =~= all);
        Ok(out)
    }

    /// Turns the text on `wire` into a handle.
    fn resolve_handle<T: Toolbox>(
        &mut self,
        tools: &T,
        resolver: DefaultResolver,
        wire: &WireRef,
    ) -> (r: Result<WireRef, String>)
        ensures
            (final(self)@, wire_outcome(r)) == resolved(*tools, old(self)@, resolver, wire@),
    {
        let mut consts: Vec<ConstArg> = Vec::new();
        let func: &str = match resolver {
            DefaultResolver::Facet(f) => {
                consts.push(ConstArg::Str(f.to_owned()));
                assert(factory::const_views(consts@) =~= seq![ConstV::Str(f@)]);
                "dataset_open"
            },
            DefaultResolver::Group => {
                assert(factory::const_views(consts@) =~= Seq::<ConstV>::empty());
                "dataset_group_open"
            },
        };
        let wires: Vec<WireRef> = compiler::one_wire(wire.copy());
        let mut types: Vec<PortType> = Vec::new();
        types.push(PortType::Str);
        assert(types@ =~= seq![PortType::Str]);
        match tools.build_node(None, func, &wires, &types, &consts) {
            Err(e) => Err(e),
            Ok(b) => Ok(self.add_anon(NodeKind::Built(b), wires)),
        }
    }

    /// Binds `targets` to a node.
    fn place_node(&mut self, targets: &Vec<String>, node: BuiltNode, wires: Vec<WireRef>)
        requires
            targets@.len() > 0,
        ensures
            final(self)@ == placed(
                old(self)@,
                chars::texts(targets@),
                node@,
                assembly::wire_views(wires@),
            ),
    {
        let ghost names = chars::texts(targets@);
        let ghost shown = node@;
        if targets.len() == 1 {
            self.add_binding(targets[0].as_str(), NodeKind::Built(node), wires);
        } else {
            let outs: Vec<PortType> = value::same_items(&node.outs);
            let mut internal: String = "__destruct_".to_owned();
            internal.append(chars::usize_text(self.handed.len()).as_str());
            compiler::add_name(&mut self.handed, internal.as_str());
            self.add_node(internal.as_str(), NodeKind::Built(node), wires);
            let ghost c = self@;
            let mut i: usize = 0;
            assert(names.take(0) =~= Seq::<Seq<char>>::empty());
            while i < targets.len()
                invariant
                    i <= targets@.len(),
                    names == chars::texts(targets@),
                    outs@ == shown.outs,
                    self@ == spread(c, internal@, shown.outs, names.take(i as int)),
                decreases targets.len() - i,
            {
                assert(names.take(i + 1).drop_last() =~= names.take(i as int));
                assert(names.take(i + 1).last() == targets@[i as int]@);
                let ty: PortType = if i < outs.len() {
                    outs[i]
                } else {
                    PortType::U64
                };
                self.add_binding(
                    targets[i].as_str(),
                    NodeKind::Identity(ty),
                    compiler::one_wire(WireRef::node_port(internal.as_str(), i)),
                );
                i = i + 1;
            }
            assert(names.take(i as int) =~= names);
        }
    }

    /// Binds `name` to the node of a function without constants.
    fn make_node<T: Toolbox>(
        &mut self,
        tools: &T,
        name: &str,
        func: &str,
        wires: Vec<WireRef>,
        types: &Vec<PortType>,
    ) -> (r: Result<(), String>)
        ensures
            (final(self)@, compiler::told(r)) == made(
                *tools,
                old(self)@,
                name@,
                func@,
                assembly::wire_views(wires@),
                types@,
            ),
    {
        let consts: Vec<ConstArg> = Vec::new();
        assert(factory::const_views(consts@) =~= Seq::<ConstV>::empty());
        match tools.build_node(None, func, &wires, types, &consts) {
            Err(e) => Err(e),
            Ok(b) => {
                self.add_binding(name, NodeKind::Built(b), wires);
                Ok(())
            },
        }
    }

    /// Widens a wire to a double where that is needed.
    fn widen(&mut self, wire: WireRef, needed: bool) -> (r: WireRef)
        ensures
            (final(self)@, r@) == widened(old(self)@, wire@, needed),
    {
        if needed {
            self.add_anon(NodeKind::ToF64, compiler::one_wire(wire))
        } else {
            wire
        }
    }

    /// Lowers an operator.
    fn compile_operator<T: Toolbox>(
        &mut self,
        tools: &T,
        name: &str,
        lhs: &Expr,
        op: BinOpKind,
        rhs: &Expr,
    ) -> (r: Result<(), String>)
        ensures
            (final(self)@, compiler::told(r)) == lowered_operator(
                *tools,
                old(self)@,
                name@,
                lhs@,
                op,
                rhs@,
            ),
        decreases weight(ExprV::BinOp(Box::new(lhs@), op, Box::new(rhs@))), 8nat,
    {
        let lt: PortType = infer_expr_type(tools, self, lhs);
        let rt: PortType = infer_expr_type(tools, self, rhs);
        if op == BinOpKind::Add && (lt == PortType::Str || rt == PortType::Str) {
            let mut list: Vec<&Expr> = Vec::new();
            assert(refs_view(list@) =~= Seq::<ExprV>::empty());
            flatten_str_add(lhs, &mut list);
            flatten_str_add(rhs, &mut list);
            proof {
                assert(refs_view(list@) =~= summands(lhs@) + summands(rhs@));
                lemma_summands_weight(lhs@);
                lemma_summands_weight(rhs@);
                lemma_exprs_weight_add(summands(lhs@), summands(rhs@));
            }
            return match self.compile_operands(tools, &list) {
                Err(e) => Err(e),
                Ok(wires) => {
                    let types: Vec<PortType> = self.graph.wire_types(&wires);
                    self.make_node(tools, name, "str_concat", wires, &types)
                },
            };
        }
        let logical: bool = op == BinOpKind::And || op == BinOpKind::Or;
        let (func, widen_l, widen_r) = match choose_operation(op, lt, rt) {
            Err(e) => {
                return Err(e);
            },
            Ok(chosen) => chosen,
        };
        proof {
            lemma_truth_weight(lhs@);
            lemma_truth_weight(rhs@);
        }
        let left: Result<WireRef, String> = if logical {
            self.compile_binop_operand(tools, &build_truth(lhs))
        } else {
            self.compile_binop_operand(tools, lhs)
        };
        let a: WireRef = match left {
            Err(e) => {
                return Err(e);
            },
            Ok(w) => w,
        };
        let right: Result<WireRef, String> = if logical {
            self.compile_binop_operand(tools, &build_truth(rhs))
        } else {
            self.compile_binop_operand(tools, rhs)
        };
        let b: WireRef = match right {
            Err(e) => {
                return Err(e);
            },
            Ok(w) => w,
        };
        let fa: WireRef = self.widen(a, widen_l);
        let fb: WireRef = self.widen(b, widen_r);
        let wires: Vec<WireRef> = compiler::two_wires(fa, fb);
        let types: Vec<PortType> = if logical {
            vec![PortType::U64, PortType::U64]
        } else {
            self.graph.wire_types(&wires)
        };
        assert(logical ==> types@ =~= seq![PortType::U64, PortType::U64]);
        self.make_node(tools, name, func, wires, &types)
    }

    /// Lowers a run of operands, from left to right.
    fn compile_operands<T: Toolbox>(&mut self, tools: &T, list: &Vec<&Expr>) -> (r: Result<
        Vec<WireRef>,
        String,
    >)
        ensures
            (final(self)@, wires_outcome(r)) == operands(*tools, old(self)@, refs_view(list@)),
        decreases exprs_weight(refs_view(list@)), 20nat,
    {
        let ghost all = refs_view(list@);
        let ghost start = self@;
        let mut out: Vec<WireRef> = Vec::new();
        let mut i: usize = 0;
        assert(all.take(0) =~= Seq::<ExprV>::empty());
        assert(assembly::wire_views(out@) =~= Seq::<WireV>::empty());
        while i < list.len()
            invariant
                i <= list@.len(),
                all == refs_view(list@),
                start == old(self)@,
                operands(*tools, start, all.take(i as int)) == (
                    self@,
                    Ok::<Seq<WireV>, Seq<char>>(assembly::wire_views(out@)),
                ),
            decreases list.len() - i,
        {
            proof {
                assert(all.take(i + 1).drop_last() =~= all.take(i as int));
                assert(all.take(i + 1).last() == list@[i as int]@);
                lemma_expr_weight(all, i as int);
            }
            let ghost before = out@;
            match self.compile_binop_operand(tools, list[i]) {
                Err(e) => {
                    proof {
                        lemma_operands_stop(*tools, start, all, i + 1);
                    }
                    return Err(e);
                },
                Ok(w) => {
                    let ghost shown = w@;
                    out.push(w);
                    assert(assembly::wire_views(out@) =~= assembly::wire_views(before).push(shown));
                },
            }
            i = i + 1;
        }
        assert(all.take(i as int) =~= all);
        Ok(out)
    }

    /// Lowers an operand. A name is its wire as it is, a number a constant
    /// node; anything else gets a made-up name.
    fn compile_binop_operand<T: Toolbox>(&mut self, tools: &T, expr: &Expr) -> (r: Result<
        WireRef,
        String,
    >)
        ensures
            (final(self)@, wire_outcome(r)) == operand(*tools, old(self)@, expr@),
        decreases weight(expr@), 12nat,
    {
        match expr {
            Expr::Ident(id, _) => Ok(self.wire_of(id.as_str())),
            Expr::FieldAccess { source, field, .. } => {
                let wire: String = compiler::field_name(source.as_str(), field.as_str());
                Ok(WireRef::node(wire.as_str()))
            },
            Expr::IntLit(v, _) => Ok(self.add_anon(NodeKind::ConstU64(*v), compiler::no_wires())),
            Expr::FloatLit(x, _) => Ok(
                self.add_anon(NodeKind::ConstF64(x.value), compiler::no_wires()),
            ),
            _ => self.compile_intermediate(tools, expr),
        }
    }

    /// Lowers a negation.
    fn compile_negation<T: Toolbox>(&mut self, tools: &T, name: &str, inner: &Expr) -> (r: Result<
        (),
        String,
    >)
        ensures
            (final(self)@, compiler::told(r)) == lowered_negation(
                *tools,
                old(self)@,
                name@,
                inner@,
            ),
        decreases weight(inner@) + 1, 8nat,
    {
        let zero: WireRef = self.add_anon(
            NodeKind::ConstF64(Float64::from_bits(0)),
            compiler::no_wires(),
        );
        match self.compile_intermediate(tools, inner) {
            Err(e) => Err(e),
            Ok(w) => {
                let wires: Vec<WireRef> = compiler::two_wires(zero, w);
                let types: Vec<PortType> = self.graph.wire_types(&wires);
                self.make_node(tools, name, "f64_sub", wires, &types)
            },
        }
    }

    /// Lowers a complement.
    fn compile_complement<T: Toolbox>(&mut self, tools: &T, name: &str, inner: &Expr) -> (r: Result<
        (),
        String,
    >)
        ensures
            (final(self)@, compiler::told(r)) == lowered_complement(
                *tools,
                old(self)@,
                name@,
                inner@,
            ),
        decreases weight(inner@) + 1, 8nat,
    {
        match self.compile_intermediate(tools, inner) {
            Err(e) => Err(e),
            Ok(w) => {
                let wires: Vec<WireRef> = compiler::one_wire(w);
                let types: Vec<PortType> = self.graph.wire_types(&wires);
                self.make_node(tools, name, "u64_not", wires, &types)
            },
        }
    }

    /// Lowers a cast.
    fn compile_cast<T: Toolbox>(
        &mut self,
        tools: &T,
        name: &str,
        inner: &Expr,
        to: PortType,
    ) -> (r: Result<(), String>)
        ensures
            (final(self)@, compiler::told(r)) == lowered_cast(
                *tools,
                old(self)@,
                name@,
                inner@,
                to,
            ),
        decreases weight(inner@) + 1, 8nat,
    {
        let from: PortType = infer_expr_type(tools, self, inner);
        match self.compile_binop_operand(tools, inner) {
            Err(e) => Err(e),
            Ok(w) => match choose_fusion(name, from, to) {
                Err(e) => Err(e),
                Ok(kind) => {
                    self.add_binding(name, kind, compiler::one_wire(w));
                    Ok(())
                },
            },
        }
    }
}

/// The operands of a chain of additions are no additions.
pub proof fn law_summands_flat(e: ExprV, i: int)
    requires
        0 <= i < summands(e).len(),
    ensures
        !(summands(e)[i] matches ExprV::BinOp(_, op, _) && op == BinOpKind::Add),
    decreases e,
{
    match e {
        ExprV::BinOp(l, BinOpKind::Add, r) => {
            if i < summands(*l).len() {
                law_summands_flat(*l, i);
            } else {
                law_summands_flat(*r, i - summands(*l).len());
            }
        },
        _ => {},
    }
}

/// Lowering a binding leaves the name that was being bound as it was.
pub proof fn law_binding_restores<T: Toolbox>(
    t: T,
    c: CompilerV,
    targets: Seq<Seq<char>>,
    e: ExprV,
)
    ensures
        bound(t, c, targets, e).0.current == c.current,
{
}

} // verus!
