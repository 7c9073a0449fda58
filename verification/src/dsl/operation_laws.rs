//! What operators mean, and what the graph of an expression computes.
use crate::chars;
use crate::dsl::assembly;
use crate::dsl::assembly::{KindV, NodeV, WireV};
use crate::dsl::ast::{BinOpKind, ExprV};
use crate::dsl::binding;
use crate::dsl::compiler::{CompilerV, Toolbox};
use crate::dsl::factory::ConstV;
use crate::value::PortType;
use vstd::prelude::*;

verus! {

// ---------------------------------------------------------------------
// Functions and operators
// ---------------------------------------------------------------------

/// One for what is so, zero for what is not.
pub open spec fn bit(b: bool) -> u64 {
    if b {
        1
    } else {
        0
    }
}

/// A number as far as 64 bits hold it.
pub open spec fn wrapped(n: int) -> u64 {
    (n % 0x1_0000_0000_0000_0000) as u64
}

/// What a function of the node library, by its name, makes of two integers.
pub open spec fn computed(func: Seq<char>, a: u64, b: u64) -> u64 {
    if func == "u64_add"@ {
        wrapped(a + b)
    } else if func == "u64_sub"@ {
        wrapped(a - b)
    } else if func == "u64_mul"@ {
        wrapped(a * b)
    } else if func == "u64_div"@ {
        a / b
    } else if func == "u64_mod"@ {
        a % b
    } else if func == "u64_and"@ {
        a & b
    } else if func == "u64_or"@ {
        a | b
    } else if func == "u64_xor"@ {
        a ^ b
    } else if func == "u64_shl"@ {
        a << b
    } else if func == "u64_shr"@ {
        a >> b
    } else if func == "u64_eq"@ {
        bit(a == b)
    } else if func == "u64_ne"@ {
        bit(a != b)
    } else if func == "u64_lt"@ {
        bit(a < b)
    } else if func == "u64_gt"@ {
        bit(a > b)
    } else if func == "u64_le"@ {
        bit(a <= b)
    } else if func == "u64_ge"@ {
        bit(a >= b)
    } else {
        0
    }
}

/// What an operator means between two integers.
pub open spec fn meant(op: BinOpKind, a: u64, b: u64) -> u64 {
    match op {
        BinOpKind::Add => wrapped(a + b),
        BinOpKind::Sub => wrapped(a - b),
        BinOpKind::Mul => wrapped(a * b),
        BinOpKind::Div => a / b,
        BinOpKind::Mod => a % b,
        BinOpKind::Pow => 0,
        BinOpKind::BitAnd => a & b,
        BinOpKind::BitOr => a | b,
        BinOpKind::BitXor => a ^ b,
        BinOpKind::Shl => a << b,
        BinOpKind::Shr => a >> b,
        BinOpKind::Eq => bit(a == b),
        BinOpKind::Ne => bit(a != b),
        BinOpKind::Lt => bit(a < b),
        BinOpKind::Gt => bit(a > b),
        BinOpKind::Le => bit(a <= b),
        BinOpKind::Ge => bit(a >= b),
        BinOpKind::And => bit(a != 0 && b != 0),
        BinOpKind::Or => bit(a != 0 || b != 0),
    }
}

/// The names of the integer functions differ in the characters behind
/// their type.
proof fn lemma_function_names()
    ensures
        "u64_add"@ =~= seq!['u', '6', '4', '_', 'a', 'd', 'd'],
        "u64_sub"@ =~= seq!['u', '6', '4', '_', 's', 'u', 'b'],
        "u64_mul"@ =~= seq!['u', '6', '4', '_', 'm', 'u', 'l'],
        "u64_div"@ =~= seq!['u', '6', '4', '_', 'd', 'i', 'v'],
        "u64_mod"@ =~= seq!['u', '6', '4', '_', 'm', 'o', 'd'],
        "u64_and"@ =~= seq!['u', '6', '4', '_', 'a', 'n', 'd'],
        "u64_or"@ =~= seq!['u', '6', '4', '_', 'o', 'r'],
        "u64_xor"@ =~= seq!['u', '6', '4', '_', 'x', 'o', 'r'],
        "u64_shl"@ =~= seq!['u', '6', '4', '_', 's', 'h', 'l'],
        "u64_shr"@ =~= seq!['u', '6', '4', '_', 's', 'h', 'r'],
        "u64_not"@ =~= seq!['u', '6', '4', '_', 'n', 'o', 't'],
        "u64_eq"@ =~= seq!['u', '6', '4', '_', 'e', 'q'],
        "u64_ne"@ =~= seq!['u', '6', '4', '_', 'n', 'e'],
        "u64_lt"@ =~= seq!['u', '6', '4', '_', 'l', 't'],
        "u64_gt"@ =~= seq!['u', '6', '4', '_', 'g', 't'],
        "u64_le"@ =~= seq!['u', '6', '4', '_', 'l', 'e'],
        "u64_ge"@ =~= seq!['u', '6', '4', '_', 'g', 'e'],
        "pow"@ =~= seq!['p', 'o', 'w'],
{
    reveal_strlit("u64_add");
    reveal_strlit("u64_sub");
    reveal_strlit("u64_mul");
    reveal_strlit("u64_div");
    reveal_strlit("u64_mod");
    reveal_strlit("u64_and");
    reveal_strlit("u64_or");
    reveal_strlit("u64_xor");
    reveal_strlit("u64_shl");
    reveal_strlit("u64_shr");
    reveal_strlit("u64_not");
    reveal_strlit("u64_eq");
    reveal_strlit("u64_ne");
    reveal_strlit("u64_lt");
    reveal_strlit("u64_gt");
    reveal_strlit("u64_le");
    reveal_strlit("u64_ge");
    reveal_strlit("pow");
}

/// What tells the names of the functions apart.
pub open spec fn mark(name: Seq<char>) -> (nat, char, char) {
    (name.len(), name[4], name[5])
}

proof fn lemma_marks()
    ensures
        mark("u64_add"@) == (7nat, 'a', 'd'),
        mark("u64_sub"@) == (7nat, 's', 'u'),
        mark("u64_mul"@) == (7nat, 'm', 'u'),
        mark("u64_div"@) == (7nat, 'd', 'i'),
        mark("u64_mod"@) == (7nat, 'm', 'o'),
        mark("u64_and"@) == (7nat, 'a', 'n'),
        mark("u64_or"@) == (6nat, 'o', 'r'),
        mark("u64_xor"@) == (7nat, 'x', 'o'),
        mark("u64_eq"@) == (6nat, 'e', 'q'),
        mark("u64_ne"@) == (6nat, 'n', 'e'),
        mark("u64_lt"@) == (6nat, 'l', 't'),
        mark("u64_gt"@) == (6nat, 'g', 't'),
        mark("u64_le"@) == (6nat, 'l', 'e'),
        mark("u64_ge"@) == (6nat, 'g', 'e'),
        mark("u64_shl"@) == (7nat, 's', 'h'),
        mark("u64_shr"@) == (7nat, 's', 'h'),
        "u64_shl"@ != "u64_shr"@,
        "pow"@.len() == 3,
{
    lemma_function_names();
    assert("u64_shl"@[6] == 'l' && "u64_shr"@[6] == 'r');
}

/// The function that is chosen for an operator between two integers
/// computes what the operator means. The logical operators are taken of
/// their operands compared with zero.
pub proof fn law_operator_means(op: BinOpKind, a: u64, b: u64)
    requires
        !(op is Pow),
    ensures
        ({
            let r = binding::operation(op, PortType::U64, PortType::U64);
            let logical = op is And || op is Or;
            &&& r is Ok
            &&& !r->Ok_0.1 && !r->Ok_0.2
            &&& !logical ==> computed(r->Ok_0.0, a, b) == meant(op, a, b)
            &&& logical ==> computed(r->Ok_0.0, bit(a != 0), bit(b != 0)) == meant(op, a, b)
        }),
{
    lemma_marks();
    assert(1u64 & 1u64 == 1u64) by (bit_vector);
    assert(1u64 & 0u64 == 0u64) by (bit_vector);
    assert(0u64 & 1u64 == 0u64) by (bit_vector);
    assert(0u64 & 0u64 == 0u64) by (bit_vector);
    assert(1u64 | 1u64 == 1u64) by (bit_vector);
    assert(1u64 | 0u64 == 1u64) by (bit_vector);
    assert(0u64 | 1u64 == 1u64) by (bit_vector);
    assert(0u64 | 0u64 == 0u64) by (bit_vector);
}

/// Two different operators never choose the same function, but for a
/// logical operator and the one on bits that it goes back to.
pub proof fn law_operators_stay_apart(a: BinOpKind, b: BinOpKind, lt: PortType, rt: PortType)
    requires
        a != b,
        !(a is And || a is Or || b is And || b is Or),
        binding::operation(a, lt, rt) is Ok,
        binding::operation(b, lt, rt) is Ok,
    ensures
        binding::operation(a, lt, rt)->Ok_0.0 != binding::operation(b, lt, rt)->Ok_0.0,
{
    lemma_marks();
    lemma_double_marks();
}

proof fn lemma_double_marks()
    ensures
        mark("f64_add"@) == (7nat, 'a', 'd') && "f64_add"@[0] == 'f',
        mark("f64_sub"@) == (7nat, 's', 'u') && "f64_sub"@[0] == 'f',
        mark("f64_mul"@) == (7nat, 'm', 'u') && "f64_mul"@[0] == 'f',
        mark("f64_div"@) == (7nat, 'd', 'i') && "f64_div"@[0] == 'f',
        mark("f64_mod"@) == (7nat, 'm', 'o') && "f64_mod"@[0] == 'f',
        mark("f64_eq"@) == (6nat, 'e', 'q') && "f64_eq"@[0] == 'f',
        mark("f64_ne"@) == (6nat, 'n', 'e') && "f64_ne"@[0] == 'f',
        mark("f64_lt"@) == (6nat, 'l', 't') && "f64_lt"@[0] == 'f',
        mark("f64_gt"@) == (6nat, 'g', 't') && "f64_gt"@[0] == 'f',
        mark("f64_le"@) == (6nat, 'l', 'e') && "f64_le"@[0] == 'f',
        mark("f64_ge"@) == (6nat, 'g', 'e') && "f64_ge"@[0] == 'f',
        mark("str_eq"@) == (6nat, 'e', 'q') && "str_eq"@[0] == 's',
        mark("str_ne"@) == (6nat, 'n', 'e') && "str_ne"@[0] == 's',
        "u64_and"@[0] == 'u' && "u64_or"@[0] == 'u' && "u64_xor"@[0] == 'u',
        "u64_shl"@[0] == 'u' && "u64_shr"@[0] == 'u',
{
    lemma_function_names();
    reveal_strlit("f64_add");
    reveal_strlit("f64_sub");
    reveal_strlit("f64_mul");
    reveal_strlit("f64_div");
    reveal_strlit("f64_mod");
    reveal_strlit("f64_eq");
    reveal_strlit("f64_ne");
    reveal_strlit("f64_lt");
    reveal_strlit("f64_gt");
    reveal_strlit("f64_le");
    reveal_strlit("f64_ge");
    reveal_strlit("str_eq");
    reveal_strlit("str_ne");
}

/// Whether an operator is arithmetic: a sum, a difference, a product, a
/// quotient or a remainder.
pub open spec fn arithmetic(op: BinOpKind) -> bool {
    op is Add || op is Sub || op is Mul || op is Div || op is Mod
}

/// Whether an operator compares.
pub open spec fn comparing(op: BinOpKind) -> bool {
    op is Eq || op is Ne || op is Lt || op is Gt || op is Le || op is Ge
}

/// An operator on doubles is the function of the doubles that is named like
/// the one of the integers; an integer beside a double is widened, and
/// nothing else is.
pub proof fn law_doubles_alike(op: BinOpKind, lt: PortType, rt: PortType)
    requires
        arithmetic(op) || comparing(op),
        lt == PortType::F64 || rt == PortType::F64,
        lt == PortType::F64 || lt == PortType::U64,
        rt == PortType::F64 || rt == PortType::U64,
    ensures
        ({
            let r = binding::operation(op, lt, rt);
            let ints = binding::operation(op, PortType::U64, PortType::U64);
            &&& r is Ok && ints is Ok
            &&& r->Ok_0.0 == "f64_"@ + ints->Ok_0.0.skip(4)
            &&& r->Ok_0.1 <==> lt == PortType::U64
            &&& r->Ok_0.2 <==> rt == PortType::U64
        }),
{
    lemma_function_names();
    lemma_double_marks();
    reveal_strlit("f64_");
    reveal_strlit("f64_add");
    reveal_strlit("f64_sub");
    reveal_strlit("f64_mul");
    reveal_strlit("f64_div");
    reveal_strlit("f64_mod");
    reveal_strlit("f64_eq");
    reveal_strlit("f64_ne");
    reveal_strlit("f64_lt");
    reveal_strlit("f64_gt");
    reveal_strlit("f64_le");
    reveal_strlit("f64_ge");
    let r = binding::operation(op, lt, rt);
    let ints = binding::operation(op, PortType::U64, PortType::U64);
    assert(r->Ok_0.0 =~= "f64_"@ + ints->Ok_0.0.skip(4));
}

/// Texts are compared for equality by the function of the texts, and have
/// no order.
pub proof fn law_texts_compared_for_equality(op: BinOpKind, lt: PortType, rt: PortType)
    requires
        comparing(op),
        lt == PortType::Str || rt == PortType::Str,
    ensures
        ({
            let r = binding::operation(op, lt, rt);
            let ints = binding::operation(op, PortType::U64, PortType::U64);
            &&& r is Ok <==> op is Eq || op is Ne
            &&& r matches Ok((func, a, b)) ==> func == "str_"@ + ints->Ok_0.0.skip(4) && !a && !b
        }),
{
    lemma_function_names();
    reveal_strlit("str_");
    reveal_strlit("str_eq");
    reveal_strlit("str_ne");
    assert("str_eq"@ =~= "str_"@ + "u64_eq"@.skip(4));
    assert("str_ne"@ =~= "str_"@ + "u64_ne"@.skip(4));
}

// ---------------------------------------------------------------------
// What a graph computes
// ---------------------------------------------------------------------

/// The value on a wire: that of an input, or of a node.
pub open spec fn wire_value(
    w: WireV,
    ins: spec_fn(Seq<char>) -> u64,
    env: spec_fn(Seq<char>) -> u64,
) -> u64 {
    match w {
        WireV::Input(n) => ins(n),
        WireV::Node(n, _) => env(n),
    }
}

/// What a node computes of whole numbers.
pub open spec fn node_value(
    n: NodeV,
    ins: spec_fn(Seq<char>) -> u64,
    env: spec_fn(Seq<char>) -> u64,
) -> u64 {
    match n.kind {
        KindV::ConstU64(v) => v,
        KindV::Identity(_) => wire_value(n.wires[0], ins, env),
        KindV::PortPassthrough(_, _) => wire_value(n.wires[0], ins, env),
        KindV::Built(b) => if n.wires.len() == 2 {
            computed(b.func, wire_value(n.wires[0], ins, env), wire_value(n.wires[1], ins, env))
        } else if n.wires.len() == 1 && b.func == "u64_not"@ {
            !wire_value(n.wires[0], ins, env)
        } else {
            0
        },
        _ => 0,
    }
}

/// The values of the names after a run of nodes, over what they were
/// before.
pub open spec fn values(
    nodes: Seq<NodeV>,
    ins: spec_fn(Seq<char>) -> u64,
    start: spec_fn(Seq<char>) -> u64,
) -> spec_fn(Seq<char>) -> u64
    decreases nodes.len(),
{
    if nodes.len() == 0 {
        start
    } else {
        let env = values(nodes.drop_last(), ins, start);
        |n: Seq<char>|
            if n == nodes.last().name {
                node_value(nodes.last(), ins, env)
            } else {
                env(n)
            }
    }
}

/// What an expression over whole numbers means.
pub open spec fn expr_value(
    e: ExprV,
    inputs: Seq<Seq<char>>,
    ins: spec_fn(Seq<char>) -> u64,
    env: spec_fn(Seq<char>) -> u64,
) -> u64
    decreases e,
{
    match e {
        ExprV::IntLit(v, _) => v,
        ExprV::Ident(n, _) => if inputs.contains(n) {
            ins(n)
        } else {
            env(n)
        },
        ExprV::BinOp(l, op, r) => meant(
            op,
            expr_value(*l, inputs, ins, env),
            expr_value(*r, inputs, ins, env),
        ),
        ExprV::UnaryBitNot(x, _) => !expr_value(*x, inputs, ins, env),
        ExprV::Cast(x, _, _) => expr_value(*x, inputs, ins, env),
        _ => 0,
    }
}

/// Whether a name is one of those that lowering makes up, with a number in
/// a range.
pub open spec fn numbered(n: Seq<char>, lo: nat, hi: nat) -> bool {
    exists|p: Seq<char>, k: nat| lo <= k < hi && n == #[trigger] made_up(p, k)
}

/// A name that lowering makes up.
pub open spec fn made_up(p: Seq<char>, k: nat) -> Seq<char> {
    p + "__anon_"@ + chars::decimal(k)
}

/// Whether an expression is over whole numbers: literals, names of whole
/// numbers that are none of those that lowering makes up, operators but for
/// the power, and casts to the same type.
pub open spec fn whole(c: CompilerV, e: ExprV) -> bool
    decreases e,
{
    match e {
        ExprV::IntLit(_, _) => true,
        ExprV::Ident(n, _) => {
            &&& forall|p: Seq<char>, k: nat| n != #[trigger] made_up(p, k)
            &&& if c.input_names.contains(n) {
                binding::or_integer(c.graph.input_type(n)) == PortType::U64
            } else {
                binding::or_integer(c.graph.output_type(n)) == PortType::U64
            }
        },
        ExprV::BinOp(l, op, r) => !(op is Pow) && whole(c, *l) && whole(c, *r),
        ExprV::UnaryBitNot(x, _) => whole(c, *x),
        ExprV::Cast(x, to, _) => to == PortType::U64 && whole(c, *x),
        _ => false,
    }
}

/// Whether a toolbox makes nodes of the functions that it is asked for.
pub open spec fn faithful<T: Toolbox>(t: T) -> bool {
    forall|
        binding: Option<Seq<char>>,
        func: Seq<char>,
        wires: Seq<WireV>,
        types: Seq<PortType>,
        consts: Seq<ConstV>,
    |
        #[trigger] t.built(binding, func, wires, types, consts) matches Ok(b) ==> b.func == func
}

/// Whether the values and the types of the names stay, but for one name and
/// those that lowering makes up between two states.
pub open spec fn kept_but(
    c: CompilerV,
    d: CompilerV,
    name: Option<Seq<char>>,
    ins: spec_fn(Seq<char>) -> u64,
    start: spec_fn(Seq<char>) -> u64,
) -> bool {
    &&& d.input_names == c.input_names
    &&& d.graph.inputs == c.graph.inputs
    &&& c.handed.len() <= d.handed.len()
    &&& forall|n: Seq<char>| c.all_names.contains(n) ==> #[trigger] d.all_names.contains(n)
    &&& forall|n: Seq<char>|
        #![trigger values(d.graph.nodes, ins, start)(n)]
        #![trigger d.graph.output_type(n)]
        Some(n) != name && !numbered(n, c.handed.len(), d.handed.len()) ==> {
            &&& values(d.graph.nodes, ins, start)(n) == values(c.graph.nodes, ins, start)(n)
            &&& d.graph.output_type(n) == c.graph.output_type(n)
        }
}

/// Two made-up names with different numbers are different.
proof fn lemma_numbers_differ(p: Seq<char>, j: nat, q: Seq<char>, k: nat)
    requires
        made_up(p, j) == made_up(q, k),
    ensures
        j == k,
{
    reveal_strlit("__anon_");
    let a = chars::decimal(j);
    let b = chars::decimal(k);
    let s = made_up(p, j);
    let t = made_up(q, k);
    chars::lemma_decimal_digits(j);
    chars::lemma_decimal_digits(k);
    let n = s.len() as int;
    if a.len() < b.len() {
        let i = n - a.len() - 1;
        assert(s[i] == '_');
        assert(t[i] == b[i - (n - b.len())]);
        assert(chars::is_digit(b[i - (n - b.len())]));
    } else if b.len() < a.len() {
        let i = n - b.len() - 1;
        assert(t[i] == '_');
        assert(s[i] == a[i - (n - a.len())]);
        assert(chars::is_digit(a[i - (n - a.len())]));
    } else {
        assert(a =~= b) by {
            assert forall|i: int| 0 <= i < a.len() implies a[i] == b[i] by {
                assert(s[n - a.len() + i] == a[i]);
                assert(t[n - b.len() + i] == b[i]);
            }
        }
    }
}

/// A made-up name has no number but its own.
proof fn lemma_own_number(p: Seq<char>, k: nat, lo: nat, hi: nat)
    ensures
        numbered(made_up(p, k), lo, hi) <==> lo <= k < hi,
{
    if numbered(made_up(p, k), lo, hi) {
        let (q, j) = choose|q: Seq<char>, j: nat|
            lo <= j < hi && made_up(p, k) == #[trigger] made_up(q, j);
        lemma_numbers_differ(p, k, q, j);
    }
}

/// The next made-up name.
proof fn lemma_anon(c: CompilerV) -> (p: Seq<char>)
    ensures
        c.anon() == made_up(p, c.handed.len()),
{
    match c.current {
        Some(b) => b,
        None => {
            let p = Seq::<char>::empty();
            assert(p + "__anon_"@ =~= "__anon_"@);
            p
        },
    }
}

/// A range of numbers in a larger one.
proof fn lemma_wider(n: Seq<char>, lo: nat, hi: nat, lo2: nat, hi2: nat)
    requires
        numbered(n, lo, hi),
        lo2 <= lo,
        hi <= hi2,
    ensures
        numbered(n, lo2, hi2),
{
    let (p, k) = choose|p: Seq<char>, k: nat| lo <= k < hi && n == #[trigger] made_up(p, k);
    assert(n == made_up(p, k));
}

/// What stays over two steps stays over both.
proof fn lemma_kept_twice(
    a: CompilerV,
    b: CompilerV,
    d: CompilerV,
    ins: spec_fn(Seq<char>) -> u64,
    start: spec_fn(Seq<char>) -> u64,
)
    requires
        kept_but(a, b, None, ins, start),
        kept_but(b, d, None, ins, start),
    ensures
        kept_but(a, d, None, ins, start),
{
    assert forall|n: Seq<char>|
        #![trigger values(d.graph.nodes, ins, start)(n)]
        #![trigger d.graph.output_type(n)]
        !numbered(n, a.handed.len(), d.handed.len()) implies {
        &&& values(d.graph.nodes, ins, start)(n) == values(a.graph.nodes, ins, start)(n)
        &&& d.graph.output_type(n) == a.graph.output_type(n)
    } by {
        if numbered(n, a.handed.len(), b.handed.len()) {
            lemma_wider(n, a.handed.len(), b.handed.len(), a.handed.len(), d.handed.len());
        }
        if numbered(n, b.handed.len(), d.handed.len()) {
            lemma_wider(n, b.handed.len(), d.handed.len(), a.handed.len(), d.handed.len());
        }
        assert(values(b.graph.nodes, ins, start)(n) == values(a.graph.nodes, ins, start)(n));
        assert(b.graph.output_type(n) == a.graph.output_type(n));
    }
}

/// An expression over whole numbers stays one, with its meaning.
proof fn lemma_still_whole(
    c: CompilerV,
    d: CompilerV,
    e: ExprV,
    ins: spec_fn(Seq<char>) -> u64,
    start: spec_fn(Seq<char>) -> u64,
)
    requires
        whole(c, e),
        kept_but(c, d, None, ins, start),
    ensures
        whole(d, e),
        expr_value(e, d.input_names, ins, values(d.graph.nodes, ins, start)) == expr_value(
            e,
            c.input_names,
            ins,
            values(c.graph.nodes, ins, start),
        ),
    decreases e,
{
    match e {
        ExprV::Ident(n, _) => {
            assert(!numbered(n, c.handed.len(), d.handed.len()));
            assert(d.graph.output_type(n) == c.graph.output_type(n));
            assert(values(d.graph.nodes, ins, start)(n) == values(c.graph.nodes, ins, start)(n));
        },
        ExprV::BinOp(l, _, r) => {
            lemma_still_whole(c, d, *l, ins, start);
            lemma_still_whole(c, d, *r, ins, start);
        },
        ExprV::UnaryBitNot(x, _) => {
            lemma_still_whole(c, d, *x, ins, start);
        },
        ExprV::Cast(x, _, _) => {
            lemma_still_whole(c, d, *x, ins, start);
        },
        _ => {},
    }
}

/// An expression over whole numbers is taken to be a whole number.
proof fn lemma_whole_type<T: Toolbox>(t: T, c: CompilerV, e: ExprV)
    requires
        whole(c, e),
    ensures
        binding::inferred(t, c, e) == PortType::U64,
    decreases e,
{
    match e {
        ExprV::BinOp(l, _, r) => {
            lemma_whole_type(t, c, *l);
            lemma_whole_type(t, c, *r);
        },
        _ => {},
    }
}

/// A node gives its name its value, and leaves the others.
proof fn lemma_node_more(
    c: CompilerV,
    name: Seq<char>,
    kind: KindV,
    wires: Seq<WireV>,
    ins: spec_fn(Seq<char>) -> u64,
    start: spec_fn(Seq<char>) -> u64,
)
    ensures
        ({
            let d = c.node(name, kind, wires);
            let env = values(c.graph.nodes, ins, start);
            &&& values(d.graph.nodes, ins, start)(name) == node_value(
                NodeV { name, kind, wires },
                ins,
                env,
            )
            &&& forall|n: Seq<char>|
                #![trigger values(d.graph.nodes, ins, start)(n)]
                #![trigger d.graph.output_type(n)]
                n != name ==> {
                    &&& values(d.graph.nodes, ins, start)(n) == env(n)
                    &&& d.graph.output_type(n) == c.graph.output_type(n)
                }
        }),
{
    let d = c.node(name, kind, wires);
    assert(d.graph.nodes.drop_last() =~= c.graph.nodes);
    assert(d.graph.nodes.last() == NodeV { name, kind, wires });
}

/// A binding adds its name to the names that are bound.
proof fn lemma_name_bound(s: Seq<Seq<char>>, name: Seq<char>)
    ensures
        s.push(name).contains(name),
        forall|n: Seq<char>| s.contains(n) ==> #[trigger] s.push(name).contains(n),
{
    let t = s.push(name);
    assert(t[s.len() as int] == name);
    assert forall|n: Seq<char>| s.contains(n) implies #[trigger] t.contains(n) by {
        let i = choose|i: int| 0 <= i < s.len() && s[i] == n;
        assert(t[i] == n);
    }
}

/// A node of a made-up name.
proof fn lemma_anon_more(
    c: CompilerV,
    kind: KindV,
    wires: Seq<WireV>,
    ins: spec_fn(Seq<char>) -> u64,
    start: spec_fn(Seq<char>) -> u64,
)
    ensures
        ({
            let d = c.anon_node(kind, wires);
            &&& kept_but(c, d, None, ins, start)
            &&& d.handed.len() == c.handed.len() + 1
            &&& d.current == c.current
            &&& values(d.graph.nodes, ins, start)(c.anon()) == node_value(
                NodeV { name: c.anon(), kind, wires },
                ins,
                values(c.graph.nodes, ins, start),
            )
            &&& numbered(c.anon(), c.handed.len(), d.handed.len())
        }),
{
    let d = c.anon_node(kind, wires);
    let took = c.took(c.anon());
    lemma_node_more(took, c.anon(), kind, wires, ins, start);
    let p = lemma_anon(c);
    assert(c.anon() == made_up(p, c.handed.len()));
    assert(numbered(c.anon(), c.handed.len(), d.handed.len()));
}

/// Whether a wire carries what an expression means, from a name that a
/// later step does not touch.
pub open spec fn carries(
    c: CompilerV,
    d: CompilerV,
    w: WireV,
    v: u64,
    ins: spec_fn(Seq<char>) -> u64,
    start: spec_fn(Seq<char>) -> u64,
) -> bool {
    &&& wire_value(w, ins, values(d.graph.nodes, ins, start)) == v
    &&& w matches WireV::Node(n, _) ==> forall|hi: nat| !#[trigger] numbered(n, d.handed.len(), hi)
}

/// An operand is a wire that carries what it means.
#[verifier::spinoff_prover]
proof fn lemma_operand<T: Toolbox>(
    t: T,
    c: CompilerV,
    e: ExprV,
    ins: spec_fn(Seq<char>) -> u64,
    start: spec_fn(Seq<char>) -> u64,
)
    requires
        faithful(t),
        whole(c, e),
        binding::operand(t, c, e).1 is Ok,
    ensures
        ({
            let (d, r) = binding::operand(t, c, e);
            let v = expr_value(e, c.input_names, ins, values(c.graph.nodes, ins, start));
            &&& kept_but(c, d, None, ins, start)
            &&& d.current == c.current
            &&& carries(c, d, r->Ok_0, v, ins, start)
        }),
    decreases binding::weight(e), 12nat,
{
    let (d, r) = binding::operand(t, c, e);
    match e {
        ExprV::Ident(n, _) => {
            assert forall|hi: nat| !#[trigger] numbered(n, d.handed.len(), hi) by {}
        },
        ExprV::IntLit(v, _) => {
            lemma_anon_more(c, KindV::ConstU64(v), Seq::empty(), ins, start);
            let p = lemma_anon(c);
            assert forall|hi: nat| !#[trigger] numbered(c.anon(), d.handed.len(), hi) by {
                lemma_own_number(p, c.handed.len(), d.handed.len(), hi);
            }
        },
        _ => {
            lemma_intermediate(t, c, e, ins, start);
        },
    }
}

/// An expression under a made-up name.
#[verifier::spinoff_prover]
proof fn lemma_intermediate<T: Toolbox>(
    t: T,
    c: CompilerV,
    e: ExprV,
    ins: spec_fn(Seq<char>) -> u64,
    start: spec_fn(Seq<char>) -> u64,
)
    requires
        faithful(t),
        whole(c, e),
        binding::intermediate(t, c, e).1 is Ok,
    ensures
        ({
            let (d, r) = binding::intermediate(t, c, e);
            let v = expr_value(e, c.input_names, ins, values(c.graph.nodes, ins, start));
            &&& kept_but(c, d, None, ins, start)
            &&& d.current == c.current
            &&& carries(c, d, r->Ok_0, v, ins, start)
        }),
    decreases binding::weight(e), 11nat,
{
    let took = c.took(c.anon());
    assert(kept_but(c, took, None, ins, start));
    lemma_still_whole(c, took, e, ins, start);
    lemma_bound(t, took, c.anon(), e, ins, start);
    let (d, r) = binding::intermediate(t, c, e);
    let p = lemma_anon(c);
    let h = c.handed.len();
    assert forall|n: Seq<char>|
        #![trigger values(d.graph.nodes, ins, start)(n)]
        #![trigger d.graph.output_type(n)]
        !numbered(n, h, d.handed.len()) implies {
        &&& values(d.graph.nodes, ins, start)(n) == values(c.graph.nodes, ins, start)(n)
        &&& d.graph.output_type(n) == c.graph.output_type(n)
    } by {
        lemma_own_number(p, h, h, d.handed.len());
        assert(n != c.anon());
        if numbered(n, h + 1, d.handed.len()) {
            lemma_wider(n, h + 1, d.handed.len(), h, d.handed.len());
        }
    }
    assert forall|hi: nat| !#[trigger] numbered(c.anon(), d.handed.len(), hi) by {
        lemma_own_number(p, h, d.handed.len(), hi);
    }
}

/// An operator over whole numbers.
#[verifier::spinoff_prover]
#[verifier::rlimit(40)]
proof fn lemma_operator<T: Toolbox>(
    t: T,
    c: CompilerV,
    name: Seq<char>,
    l: ExprV,
    op: BinOpKind,
    r: ExprV,
    ins: spec_fn(Seq<char>) -> u64,
    start: spec_fn(Seq<char>) -> u64,
)
    requires
        faithful(t),
        whole(c, ExprV::BinOp(Box::new(l), op, Box::new(r))),
        binding::lowered_operator(t, c, name, l, op, r).1 is Ok,
    ensures
        ({
            let (d, _) = binding::lowered_operator(t, c, name, l, op, r);
            let env = values(c.graph.nodes, ins, start);
            &&& kept_but(c, d, Some(name), ins, start)
            &&& d.current == c.current
            &&& d.all_names.contains(name)
            &&& values(d.graph.nodes, ins, start)(name) == meant(
                op,
                expr_value(l, c.input_names, ins, env),
                expr_value(r, c.input_names, ins, env),
            )
        }),
    decreases binding::weight(ExprV::BinOp(Box::new(l), op, Box::new(r))), 8nat,
{
    let env = values(c.graph.nodes, ins, start);
    let logical = op == BinOpKind::And || op == BinOpKind::Or;
    let left = if logical {
        binding::truth(l)
    } else {
        l
    };
    let right = if logical {
        binding::truth(r)
    } else {
        r
    };
    let e = ExprV::BinOp(Box::new(l), op, Box::new(r));
    assert(whole(c, l) && whole(c, r));
    lemma_whole_type(t, c, l);
    lemma_whole_type(t, c, r);
    binding::lemma_truth_weight(l);
    binding::lemma_truth_weight(r);
    lemma_truth(c, l, ins, env);
    lemma_truth(c, r, ins, env);
    let a = expr_value(l, c.input_names, ins, env);
    let b = expr_value(r, c.input_names, ins, env);
    law_operator_means(op, a, b);
    let (func, _, _) = binding::operation(op, PortType::U64, PortType::U64)->Ok_0;
    lemma_operand(t, c, left, ins, start);
    let (c1, wl) = binding::operand(t, c, left);
    lemma_still_whole(c, c1, right, ins, start);
    lemma_operand(t, c1, right, ins, start);
    let (c2, wr) = binding::operand(t, c1, right);
    lemma_kept_twice(c, c1, c2, ins, start);
    let x = wl->Ok_0;
    let y = wr->Ok_0;
    let env2 = values(c2.graph.nodes, ins, start);
    assert(wire_value(x, ins, env2) == expr_value(left, c.input_names, ins, env)) by {
        match x {
            WireV::Node(n, _) => {
                assert(!numbered(n, c1.handed.len(), c2.handed.len()));
            },
            _ => {},
        }
    }
    assert(wire_value(y, ins, env2) == expr_value(right, c.input_names, ins, env));
    let wires = seq![x, y];
    let (d, out) = binding::lowered_operator(t, c, name, l, op, r);
    let types = if logical {
        seq![PortType::U64, PortType::U64]
    } else {
        assembly::wire_types(c2.graph, wires)
    };
    assert((d, out) == binding::made(t, c2, name, func, wires, types));
    let built = t.built(None, func, wires, types, Seq::empty())->Ok_0;
    assert(built.func == func);
    lemma_node_more(c2, name, KindV::Built(built), wires, ins, start);
    lemma_name_bound(c2.all_names, name);
}

/// The comparison of an expression with zero.
proof fn lemma_truth(
    c: CompilerV,
    e: ExprV,
    ins: spec_fn(Seq<char>) -> u64,
    env: spec_fn(Seq<char>) -> u64,
)
    requires
        whole(c, e),
    ensures
        whole(c, binding::truth(e)),
        expr_value(binding::truth(e), c.input_names, ins, env) == bit(
            expr_value(e, c.input_names, ins, env) != 0,
        ),
{
    let zero = ExprV::IntLit(0, binding::span_of(e));
    assert(whole(c, zero));
    assert(expr_value(zero, c.input_names, ins, env) == 0);
}

/// A binding of an expression over whole numbers.
#[verifier::spinoff_prover]
pub(crate) proof fn lemma_bound<T: Toolbox>(
    t: T,
    c: CompilerV,
    name: Seq<char>,
    e: ExprV,
    ins: spec_fn(Seq<char>) -> u64,
    start: spec_fn(Seq<char>) -> u64,
)
    requires
        faithful(t),
        whole(c, e),
        binding::bound(t, c, seq![name], e).1 is Ok,
    ensures
        ({
            let (d, _) = binding::bound(t, c, seq![name], e);
            &&& kept_but(c, d, Some(name), ins, start)
            &&& d.current == c.current
            &&& d.all_names.contains(name)
            &&& values(d.graph.nodes, ins, start)(name) == expr_value(
                e,
                c.input_names,
                ins,
                values(c.graph.nodes, ins, start),
            )
        }),
    decreases binding::weight(e), 10nat,
{
    let inner = CompilerV { current: Some(name), ..c };
    let env = values(c.graph.nodes, ins, start);
    assert(kept_but(c, inner, None, ins, start));
    lemma_still_whole(c, inner, e, ins, start);
    let (after, r) = binding::lowered(t, inner, seq![name], e);
    let (d, _) = binding::bound(t, c, seq![name], e);
    match e {
        ExprV::IntLit(v, _) => {
            lemma_node_more(inner, name, KindV::ConstU64(v), Seq::empty(), ins, start);
            lemma_name_bound(inner.all_names, name);
        },
        ExprV::Ident(id, _) => {
            let w = inner.wire_of(id);
            lemma_node_more(
                inner,
                name,
                KindV::Identity(PortType::U64),
                seq![w],
                ins,
                start,
            );
            lemma_name_bound(inner.all_names, name);
        },
        ExprV::BinOp(x, op, y) => {
            assert(e == ExprV::BinOp(Box::new(*x), op, Box::new(*y)));
            lemma_operator(t, inner, name, *x, op, *y, ins, start);
        },
        ExprV::UnaryBitNot(x, _) => {
            lemma_intermediate(t, inner, *x, ins, start);
            let (c1, rw) = binding::intermediate(t, inner, *x);
            let w = rw->Ok_0;
            let types = assembly::wire_types(c1.graph, seq![w]);
            let built = t.built(None, "u64_not"@, seq![w], types, Seq::empty())->Ok_0;
            assert(built.func == "u64_not"@);
            lemma_node_more(c1, name, KindV::Built(built), seq![w], ins, start);
            lemma_name_bound(c1.all_names, name);
        },
        ExprV::Cast(x, to, _) => {
            lemma_whole_type(t, inner, *x);
            lemma_operand(t, inner, *x, ins, start);
            let (c1, rw) = binding::operand(t, inner, *x);
            let w = rw->Ok_0;
            lemma_node_more(
                c1,
                name,
                KindV::PortPassthrough(name, to),
                seq![w],
                ins,
                start,
            );
            lemma_name_bound(c1.all_names, name);
        },
        _ => {},
    }
}

/// A binding of an expression over whole numbers computes what the
/// expression means: over any values of the inputs and of the names that
/// were bound before, the graph gives the new name the value of the
/// expression, and leaves every name alone that is not made up for it.
pub proof fn law_binding_computes<T: Toolbox>(
    t: T,
    c: CompilerV,
    name: Seq<char>,
    e: ExprV,
    ins: spec_fn(Seq<char>) -> u64,
    start: spec_fn(Seq<char>) -> u64,
)
    requires
        faithful(t),
        whole(c, e),
        binding::bound(t, c, seq![name], e).1 is Ok,
    ensures
        ({
            let (d, _) = binding::bound(t, c, seq![name], e);
            let before = values(c.graph.nodes, ins, start);
            let after = values(d.graph.nodes, ins, start);
            &&& after(name) == expr_value(e, c.input_names, ins, before)
            &&& forall|n: Seq<char>|
                n != name && !numbered(n, c.handed.len(), d.handed.len()) ==> #[trigger] after(n)
                    == before(n)
        }),
{
    lemma_bound(t, c, name, e, ins, start);
}

} // verus!
