//! What a program computes.
use crate::dsl::assembly::WireV;
use crate::dsl::ast::{BindingModifier, ExprV, StatementV};
use crate::dsl::compile;
use crate::dsl::compiler::{CompilerV, Toolbox};
use crate::dsl::operation_laws;
use crate::dsl::operation_laws::{expr_value, faithful, made_up, numbered, values, whole};
use crate::dsl::refs;
use vstd::prelude::*;

verus! {

/// Whether a name is none of those that lowering makes up.
pub open spec fn written_name(n: Seq<char>) -> bool {
    forall|p: Seq<char>, k: nat| n != #[trigger] made_up(p, k)
}

/// Whether a statement is a binding of one name without modifiers.
pub open spec fn plain_binding(s: StatementV) -> bool {
    s matches StatementV::Binding(b) && b.targets.len() == 1 && b.modifier
        == BindingModifier::plain() && written_name(b.targets[0])
}

/// Whether a statement does nothing by itself where it stands.
pub open spec fn idle(s: StatementV) -> bool {
    s is InputDecl || s is Pragma || s is ModuleDef
}

/// Whether a program binds names to expressions over whole numbers, each of
/// what stands before it.
pub open spec fn whole_program<T: Toolbox>(t: T, c: CompilerV, stmts: Seq<StatementV>) -> bool
    decreases stmts.len(),
{
    stmts.len() > 0 ==> {
        &&& whole_program(t, c, stmts.drop_last())
        &&& idle(stmts.last()) || plain_binding(stmts.last()) && whole(
            compile::statements_lowered(t, c, stmts.drop_last()).0,
            stmts.last()->Binding_0.value,
        )
    }
}

/// The values of the names after a program, statement by statement.
pub open spec fn program_values(
    stmts: Seq<StatementV>,
    inputs: Seq<Seq<char>>,
    ins: spec_fn(Seq<char>) -> u64,
    env: spec_fn(Seq<char>) -> u64,
) -> spec_fn(Seq<char>) -> u64
    decreases stmts.len(),
{
    if stmts.len() == 0 {
        env
    } else {
        let before = program_values(stmts.drop_last(), inputs, ins, env);
        match stmts.last() {
            StatementV::Binding(b) => |n: Seq<char>|
                if n == b.targets[0] {
                    expr_value(b.value, inputs, ins, before)
                } else {
                    before(n)
                },
            _ => before,
        }
    }
}

/// An expression means the same where the names in it have the same values.
proof fn lemma_value_local(
    c: CompilerV,
    e: ExprV,
    ins: spec_fn(Seq<char>) -> u64,
    a: spec_fn(Seq<char>) -> u64,
    b: spec_fn(Seq<char>) -> u64,
)
    requires
        whole(c, e),
        forall|n: Seq<char>| written_name(n) ==> #[trigger] a(n) == b(n),
    ensures
        expr_value(e, c.input_names, ins, a) == expr_value(e, c.input_names, ins, b),
    decreases e,
{
    match e {
        ExprV::Ident(n, _) => {
            assert(written_name(n));
            assert(a(n) == b(n));
        },
        ExprV::BinOp(l, _, r) => {
            lemma_value_local(c, *l, ins, a, b);
            lemma_value_local(c, *r, ins, a, b);
        },
        ExprV::UnaryBitNot(x, _) => {
            lemma_value_local(c, *x, ins, a, b);
        },
        ExprV::Cast(x, _, _) => {
            lemma_value_local(c, *x, ins, a, b);
        },
        _ => {},
    }
}

/// The graph of a program over whole numbers computes what the program
/// says: over any values of the inputs, every name has the value that
/// executing the statements one after the other gives it. Every name that
/// is bound is noted as bound.
pub proof fn law_program_computes<T: Toolbox>(
    t: T,
    c: CompilerV,
    stmts: Seq<StatementV>,
    ins: spec_fn(Seq<char>) -> u64,
    start: spec_fn(Seq<char>) -> u64,
)
    requires
        faithful(t),
        whole_program(t, c, stmts),
        compile::statements_lowered(t, c, stmts).1 is Ok,
    ensures
        ({
            let d = compile::statements_lowered(t, c, stmts).0;
            let got = values(d.graph.nodes, ins, start);
            let want = program_values(
                stmts,
                c.input_names,
                ins,
                values(c.graph.nodes, ins, start),
            );
            &&& forall|n: Seq<char>| written_name(n) ==> #[trigger] got(n) == want(n)
            &&& d.input_names == c.input_names
            &&& forall|n: Seq<char>| c.all_names.contains(n) ==> #[trigger] d.all_names.contains(n)
            &&& forall|i: int|
                0 <= i < stmts.len() && (#[trigger] stmts[i]) is Binding ==> d.all_names.contains(
                    stmts[i]->Binding_0.targets[0],
                )
        }),
    decreases stmts.len(),
{
    if stmts.len() > 0 {
        let front = stmts.drop_last();
        law_program_computes(t, c, front, ins, start);
        let c1 = compile::statements_lowered(t, c, front).0;
        let d = compile::statements_lowered(t, c, stmts).0;
        let env0 = values(c.graph.nodes, ins, start);
        let want = program_values(stmts, c.input_names, ins, env0);
        let before = program_values(front, c.input_names, ins, env0);
        let mid = values(c1.graph.nodes, ins, start);
        let got = values(d.graph.nodes, ins, start);
        match stmts.last() {
            StatementV::Binding(b) => {
                let name = b.targets[0];
                assert(b.targets =~= seq![name]);
                assert(d == crate::dsl::binding::bound(t, c1, seq![name], b.value).0);
                operation_laws::lemma_bound(t, c1, name, b.value, ins, start);
                lemma_value_local(c1, b.value, ins, mid, before);
                assert forall|n: Seq<char>| written_name(n) implies #[trigger] got(n) == want(n) by {
                    assert(!numbered(n, c1.handed.len(), d.handed.len()));
                    assert(mid(n) == before(n));
                }
            },
            _ => {
                assert(d == c1);
            },
        }
        assert forall|i: int| 0 <= i < stmts.len() && (#[trigger] stmts[i]) is Binding implies
            d.all_names.contains(stmts[i]->Binding_0.targets[0]) by {
            if i < front.len() {
                assert(front[i] == stmts[i]);
                assert(c1.all_names.contains(front[i]->Binding_0.targets[0]));
            }
        }
    }
}

/// A program that is lowered as a whole has every name that is bound as an
/// output, from the node of that name.
pub proof fn law_bound_names_are_outputs<T: Toolbox>(
    t: T,
    c: CompilerV,
    stmts: Seq<StatementV>,
    n: Seq<char>,
)
    requires
        compile::compiled(t, c, stmts).1 is Ok,
        compile::populated(t, c, stmts).0.all_names.contains(n),
    ensures
        compile::compiled(t, c, stmts).0.graph.outputs.contains((n, WireV::Node(n, 0))),
{
    let c1 = compile::populated(t, c, stmts).0;
    let names = c1.all_names;
    let i = choose|i: int| 0 <= i < names.len() && names[i] == n;
    let out = compile::compiled(t, c, stmts).0.graph.outputs;
    assert(out[c1.graph.outputs.len() + i] == (n, WireV::Node(n, 0)));
}

/// Whether two readings agree on a run of names.
pub open spec fn agree(
    names: Seq<Seq<char>>,
    ins: spec_fn(Seq<char>) -> u64,
    ins2: spec_fn(Seq<char>) -> u64,
    env: spec_fn(Seq<char>) -> u64,
    env2: spec_fn(Seq<char>) -> u64,
) -> bool {
    forall|i: int|
        0 <= i < names.len() ==> ins(#[trigger] names[i]) == ins2(names[i]) && env(names[i])
            == env2(names[i])
}

/// What an expression over whole numbers means depends on nothing but the
/// names that it refers to.
pub proof fn law_references_decide(
    c: CompilerV,
    e: ExprV,
    ins: spec_fn(Seq<char>) -> u64,
    ins2: spec_fn(Seq<char>) -> u64,
    env: spec_fn(Seq<char>) -> u64,
    env2: spec_fn(Seq<char>) -> u64,
)
    requires
        whole(c, e),
        agree(refs::references(e), ins, ins2, env, env2),
    ensures
        expr_value(e, c.input_names, ins, env) == expr_value(e, c.input_names, ins2, env2),
    decreases e,
{
    let all = refs::references(e);
    match e {
        ExprV::Ident(n, _) => {
            assert(all[0] == n);
        },
        ExprV::BinOp(l, _, r) => {
            let a = refs::references(*l);
            let b = refs::references(*r);
            assert(all == a + b);
            assert(agree(a, ins, ins2, env, env2)) by {
                assert forall|i: int| 0 <= i < a.len() implies ins(#[trigger] a[i]) == ins2(a[i])
                    && env(a[i]) == env2(a[i]) by {
                    assert(all[i] == a[i]);
                }
            }
            assert(agree(b, ins, ins2, env, env2)) by {
                assert forall|i: int| 0 <= i < b.len() implies ins(#[trigger] b[i]) == ins2(b[i])
                    && env(b[i]) == env2(b[i]) by {
                    assert(all[a.len() + i] == b[i]);
                }
            }
            law_references_decide(c, *l, ins, ins2, env, env2);
            law_references_decide(c, *r, ins, ins2, env, env2);
        },
        ExprV::UnaryBitNot(x, _) => {
            law_references_decide(c, *x, ins, ins2, env, env2);
        },
        ExprV::Cast(x, _, _) => {
            law_references_decide(c, *x, ins, ins2, env, env2);
        },
        _ => {},
    }
}

} // verus!
