//! What the inputs of a program are, and which pragmas are in force.
use crate::dsl::assembly;
use crate::dsl::assembly::{GraphV, SlotV, WireV};
use crate::dsl::ast::{Span, StatementV};
use crate::dsl::catalog::Catalog;
use crate::dsl::compile;
use crate::dsl::operation_laws::faithful;
use crate::dsl::pragmas;
use crate::dsl::pragmas::{ConflictV, PragmaV};
use crate::value;
use crate::value::PortType;
use vstd::prelude::*;

verus! {

/// Every input is handed on as an output of its name, from a node that
/// passes it through.
pub proof fn law_inputs_are_outputs(g: GraphV, names: Seq<Seq<char>>)
    ensures
        ({
            let d = compile::exposed(g, names);
            &&& d.inputs == g.inputs
            &&& d.outputs.len() == g.outputs.len() + names.len()
            &&& d.nodes.len() == g.nodes.len() + names.len()
            &&& forall|i: int|
                0 <= i < names.len() ==> {
                    let (out, wire) = #[trigger] d.outputs[g.outputs.len() + i];
                    let n = d.nodes[g.nodes.len() + i];
                    &&& out == names[i]
                    &&& wire == WireV::Node(n.name, 0)
                    &&& n.kind is PortPassthrough
                    &&& n.wires == seq![WireV::Input(names[i])]
                }
        }),
    decreases names.len(),
{
    if names.len() > 0 {
        let front = names.drop_last();
        law_inputs_are_outputs(g, front);
        let e = compile::exposed(g, front);
        let d = compile::exposed(g, names);
        assert forall|i: int| 0 <= i < names.len() implies {
            let (out, wire) = #[trigger] d.outputs[g.outputs.len() + i];
            let n = d.nodes[g.nodes.len() + i];
            &&& out == names[i]
            &&& wire == WireV::Node(n.name, 0)
            &&& n.kind is PortPassthrough
            &&& n.wires == seq![WireV::Input(names[i])]
        } by {
            if i < front.len() {
                assert(d.outputs[g.outputs.len() + i] == e.outputs[g.outputs.len() + i]);
                assert(d.nodes[g.nodes.len() + i] == e.nodes[g.nodes.len() + i]);
                assert(front[i] == names[i]);
            }
        }
    }
}

proof fn lemma_retyped(inputs: Seq<SlotV>, g: GraphV, name: Seq<char>, port: PortType, k: int)
    requires
        0 <= k <= g.inputs.len(),
    ensures
        ({
            let d = g.retyped(name, port);
            &&& assembly::slot_port(d.inputs.take(k), name) == match assembly::slot_port(
                g.inputs.take(k),
                name,
            ) {
                Some(_) => Some(port),
                None => None,
            }
            &&& forall|other: Seq<char>|
                other != name ==> #[trigger] assembly::slot_port(d.inputs.take(k), other)
                    == assembly::slot_port(g.inputs.take(k), other)
        }),
    decreases k,
{
    let d = g.retyped(name, port);
    if k > 0 {
        lemma_retyped(inputs, g, name, port, k - 1);
        assert(d.inputs.take(k).drop_last() =~= d.inputs.take(k - 1));
        assert(g.inputs.take(k).drop_last() =~= g.inputs.take(k - 1));
        assert(d.inputs.take(k).last() == d.inputs[k - 1]);
        assert(g.inputs.take(k).last() == g.inputs[k - 1]);
        assert(d.inputs[k - 1].name == g.inputs[k - 1].name);
        assert forall|other: Seq<char>| other != name implies #[trigger] assembly::slot_port(
            d.inputs.take(k),
            other,
        ) == assembly::slot_port(g.inputs.take(k), other) by {
            assert(assembly::slot_port(d.inputs.take(k - 1), other) == assembly::slot_port(
                g.inputs.take(k - 1),
                other,
            ));
        }
    }
}

/// An input has the type that it was last declared with; declaring one
/// leaves the types of the others.
pub proof fn law_declared_type(
    g: GraphV,
    stmts: Seq<StatementV>,
    name: Seq<char>,
    port: PortType,
    span: Span,
)
    requires
        compile::typed(g, stmts).input_type(name) is Some,
    ensures
        ({
            let more = stmts.push(
                StatementV::InputDecl(name, Some(value::port_keyword(port)), span),
            );
            &&& compile::typed(g, more).input_type(name) == Some(port)
            &&& forall|other: Seq<char>|
                other != name ==> #[trigger] compile::typed(g, more).input_type(other)
                    == compile::typed(g, stmts).input_type(other)
        }),
{
    let more = stmts.push(StatementV::InputDecl(name, Some(value::port_keyword(port)), span));
    assert(more.drop_last() =~= stmts);
    value::law_keyword_round_trip(port);
    let front = compile::typed(g, stmts);
    let d = front.retyped(name, port);
    assert(compile::typed(g, more) == d);
    lemma_retyped(front.inputs, front, name, port, front.inputs.len() as int);
    assert(front.inputs.take(front.inputs.len() as int) =~= front.inputs);
    assert(d.inputs.take(front.inputs.len() as int) =~= d.inputs);
    assert forall|other: Seq<char>| other != name implies #[trigger] d.input_type(other)
        == front.input_type(other) by {
        assert(assembly::slot_port(d.inputs.take(front.inputs.len() as int), other)
            == assembly::slot_port(front.inputs.take(front.inputs.len() as int), other));
    }
}

/// The inputs of a program are those it began with and those it declares,
/// in their order, each once.
pub proof fn law_declared_once(names: Seq<Seq<char>>, stmts: Seq<StatementV>)
    requires
        names.no_duplicates(),
    ensures
        compile::declared(names, stmts).no_duplicates(),
        compile::declared(names, stmts).len() >= names.len(),
        compile::declared(names, stmts).take(names.len() as int) == names,
        forall|n: Seq<char>| #[trigger]
            compile::declared(names, stmts).contains(n) <==> names.contains(n) || exists|i: int|
                0 <= i < stmts.len() && ((#[trigger] stmts[i]) matches StatementV::InputDecl(x, _, _)
                    && x == n),
    decreases stmts.len(),
{
    let all = compile::declared(names, stmts);
    if stmts.len() == 0 {
        assert(all.take(names.len() as int) =~= names);
    } else {
        let rest = stmts.drop_last();
        law_declared_once(names, rest);
        let front = compile::declared(names, rest);
        assert(all.take(names.len() as int) =~= front.take(names.len() as int));
        assert forall|n: Seq<char>| #[trigger] all.contains(n) <==> names.contains(n) || exists|
            i: int,
        |
            0 <= i < stmts.len() && ((#[trigger] stmts[i]) matches StatementV::InputDecl(x, _, _)
                && x == n) by {
            assert(front.contains(n) <==> names.contains(n) || exists|i: int|
                0 <= i < rest.len() && ((#[trigger] rest[i]) matches StatementV::InputDecl(x, _, _)
                    && x == n));
            if front.contains(n) {
                let k = choose|k: int| 0 <= k < front.len() && front[k] == n;
                assert(all[k] == n);
                if !names.contains(n) {
                    let i = choose|i: int|
                        0 <= i < rest.len() && ((#[trigger] rest[i]) matches StatementV::InputDecl(
                            x,
                            _,
                            _,
                        ) && x == n);
                    assert(stmts[i] == rest[i]);
                }
            }
            if all.contains(n) && !front.contains(n) {
                let k = choose|k: int| 0 <= k < all.len() && all[k] == n;
                assert(k == front.len());
                assert(stmts[stmts.len() - 1] == stmts.last());
            }
            if exists|i: int|
                0 <= i < stmts.len() && ((#[trigger] stmts[i]) matches StatementV::InputDecl(x, _, _)
                    && x == n) {
                let i = choose|i: int|
                    0 <= i < stmts.len() && ((#[trigger] stmts[i]) matches StatementV::InputDecl(
                        x,
                        _,
                        _,
                    ) && x == n);
                if i < rest.len() {
                    assert(rest[i] == stmts[i]);
                    assert(front.contains(n));
                } else if !front.contains(n) {
                    assert(all[front.len() as int] == n);
                }
            }
        }
        if all.len() > front.len() {
            let x = all.last();
            assert forall|i: int, j: int|
                0 <= i < all.len() && 0 <= j < all.len() && i != j implies all[i] != all[j] by {
                if i == front.len() {
                    assert(front[j] == all[j]);
                    assert(front.contains(front[j]));
                } else if j == front.len() {
                    assert(front[i] == all[i]);
                    assert(front.contains(front[i]));
                } else {
                    assert(front[i] == all[i] && front[j] == all[j]);
                }
            }
        }
    }
}

/// `strict` asks for what `strict_types` and `strict_values` ask for
/// together; each of these asks for its own alone.
pub proof fn law_strictness(chain: Seq<Seq<PragmaV>>)
    ensures
        pragmas::in_force(chain, "strict"@) ==> pragmas::types_strict(chain)
            && pragmas::values_strict(chain),
        pragmas::in_force(chain, "strict_types"@) ==> pragmas::types_strict(chain),
        pragmas::in_force(chain, "strict_values"@) ==> pragmas::values_strict(chain),
        !pragmas::in_force(chain, "strict"@) && !pragmas::in_force(chain, "strict_types"@)
            ==> !pragmas::types_strict(chain),
        !pragmas::in_force(chain, "strict"@) && !pragmas::in_force(chain, "strict_values"@)
            ==> !pragmas::values_strict(chain),
{
}

/// A pragma that the nearest scope with its name gives other arguments is
/// told of, with the lines of both.
pub proof fn law_disagreement_is_told(
    entry: PragmaV,
    own: Seq<PragmaV>,
    around: Seq<Seq<PragmaV>>,
    i: int,
)
    requires
        0 <= i < own.len(),
        own[i].name == entry.name,
        forall|j: int| 0 <= j < i ==> (#[trigger] own[j]).name != entry.name,
        own[i].args != entry.args,
    ensures
        pragmas::disagreement(entry, seq![own] + around) == Some(
            ConflictV { name: entry.name, outer_line: own[i].line, inner_line: entry.line },
        ),
{
    lemma_first_named(own, entry.name, i);
    assert((seq![own] + around)[0] == own);
}

proof fn lemma_first_named(s: Seq<PragmaV>, name: Seq<char>, i: int)
    requires
        0 <= i < s.len(),
        s[i].name == name,
        forall|j: int| 0 <= j < i ==> (#[trigger] s[j]).name != name,
    ensures
        pragmas::first_named(s, name) == Some(s[i]),
    decreases i,
{
    if i > 0 {
        assert(s[0].name != name);
        let rest = s.drop_first();
        assert forall|j: int| 0 <= j < i - 1 implies (#[trigger] rest[j]).name != name by {
            assert(rest[j] == s[j + 1]);
        }
        lemma_first_named(rest, name, i - 1);
    }
}

/// A catalog makes nodes of the functions that it is asked for.
pub proof fn law_catalog_is_faithful(c: Catalog)
    ensures
        faithful(c),
{
}

} // verus!
