//! What a graph in the making says of its inputs and nodes.
use crate::dsl::assembly;
use crate::dsl::assembly::{GraphV, KindV, NodeV, SlotV, WireV};
use crate::dsl::ast::BindingModifier;
use crate::dsl::embedding;
use crate::float::Float64;
use crate::value::{DatumV, PortType};
use vstd::prelude::*;

verus! {

/// The type of an input is that of the latest input of its name; where
/// there is none, there is no type.
pub proof fn law_latest_input_counts(g: GraphV, name: Seq<char>, i: int)
    requires
        0 <= i < g.inputs.len(),
        g.inputs[i].name == name,
        forall|j: int| i < j < g.inputs.len() ==> (#[trigger] g.inputs[j]).name != name,
    ensures
        g.input_type(name) == Some(g.inputs[i].port),
        g.wire_type(WireV::Input(name)) == Some(g.inputs[i].port),
        g.has_input(name),
{
    lemma_latest_slot(g.inputs, name, i);
}

proof fn lemma_latest_slot(s: Seq<SlotV>, name: Seq<char>, i: int)
    requires
        0 <= i < s.len(),
        s[i].name == name,
        forall|j: int| i < j < s.len() ==> (#[trigger] s[j]).name != name,
    ensures
        assembly::slot_port(s, name) == Some(s[i].port),
    decreases s.len(),
{
    if i < s.len() - 1 {
        let front = s.drop_last();
        assert(s[s.len() - 1].name != name);
        assert forall|j: int| i < j < front.len() implies (#[trigger] front[j]).name != name by {
            assert(front[j] == s[j]);
        }
        lemma_latest_slot(front, name, i);
    }
}

/// A name without an input is no input.
pub proof fn law_no_such_input(g: GraphV, name: Seq<char>)
    requires
        forall|j: int| 0 <= j < g.inputs.len() ==> (#[trigger] g.inputs[j]).name != name,
    ensures
        !g.has_input(name),
        g.wire_type(WireV::Input(name)) is None,
{
    lemma_no_slot(g.inputs, name);
}

proof fn lemma_no_slot(s: Seq<SlotV>, name: Seq<char>)
    requires
        forall|j: int| 0 <= j < s.len() ==> (#[trigger] s[j]).name != name,
    ensures
        assembly::slot_port(s, name) is None,
    decreases s.len(),
{
    if s.len() > 0 {
        let front = s.drop_last();
        assert(s[s.len() - 1].name != name);
        assert forall|j: int| 0 <= j < front.len() implies (#[trigger] front[j]).name != name by {
            assert(front[j] == s[j]);
        }
        lemma_no_slot(front, name);
    }
}

/// The type of an output is that of the latest node of its name.
pub proof fn law_latest_node_counts(g: GraphV, name: Seq<char>, i: int, port: nat)
    requires
        0 <= i < g.nodes.len(),
        g.nodes[i].name == name,
        forall|j: int| i < j < g.nodes.len() ==> (#[trigger] g.nodes[j]).name != name,
    ensures
        g.wire_type(WireV::Node(name, port)) == assembly::kind_port(g.nodes[i].kind, port),
        g.output_type(name) == assembly::kind_port(g.nodes[i].kind, 0),
{
    lemma_latest_node(g.nodes, name, i, port);
    lemma_latest_node(g.nodes, name, i, 0);
}

proof fn lemma_latest_node(s: Seq<NodeV>, name: Seq<char>, i: int, port: nat)
    requires
        0 <= i < s.len(),
        s[i].name == name,
        forall|j: int| i < j < s.len() ==> (#[trigger] s[j]).name != name,
    ensures
        assembly::node_port(s, name, port) == assembly::kind_port(s[i].kind, port),
    decreases s.len(),
{
    if i < s.len() - 1 {
        let front = s.drop_last();
        assert(s[s.len() - 1].name != name);
        assert forall|j: int| i < j < front.len() implies (#[trigger] front[j]).name != name by {
            assert(front[j] == s[j]);
        }
        lemma_latest_node(front, name, i, port);
    }
}

/// The modifiers of an output are those that were recorded last.
pub proof fn law_latest_modifier_counts(
    g: GraphV,
    name: Seq<char>,
    other: Seq<char>,
    m: BindingModifier,
)
    ensures
        assembly::modifier_of(g.with_modifier(name, m).modifiers, name) == m,
        other != name ==> assembly::modifier_of(g.with_modifier(name, m).modifiers, other)
            == assembly::modifier_of(g.modifiers, other),
{
    assert(g.modifiers.push((name, m)).drop_last() =~= g.modifiers);
}

/// A new node gives its name its own type, and leaves what other names
/// stand for.
pub proof fn law_new_node(
    g: GraphV,
    name: Seq<char>,
    kind: KindV,
    wires: Seq<WireV>,
    other: Seq<char>,
    port: nat,
)
    ensures
        ({
            let n = g.with_node(name, kind, wires);
            &&& n.wire_type(WireV::Node(name, port)) == assembly::kind_port(kind, port)
            &&& other != name ==> n.wire_type(WireV::Node(other, port)) == g.wire_type(
                WireV::Node(other, port),
            )
            &&& n.wire_type(WireV::Input(other)) == g.wire_type(WireV::Input(other))
        }),
{
    let n = g.nodes.push(NodeV { name, kind, wires });
    assert(n.drop_last() =~= g.nodes);
}

/// A new input gives its name its own type, and leaves what other names
/// stand for.
pub proof fn law_new_input(g: GraphV, slot: SlotV, other: Seq<char>, port: nat)
    ensures
        ({
            let n = g.with_input(slot);
            &&& n.input_type(slot.name) == Some(slot.port)
            &&& other != slot.name ==> n.input_type(other) == g.input_type(other)
            &&& n.wire_type(WireV::Node(other, port)) == g.wire_type(WireV::Node(other, port))
        }),
{
    assert(g.inputs.push(slot).drop_last() =~= g.inputs);
}

proof fn lemma_retyped(g: GraphV, name: Seq<char>, port: PortType, other: Seq<char>, k: int)
    requires
        0 <= k <= g.inputs.len(),
    ensures
        ({
            let n = g.retyped(name, port).inputs.take(k);
            let o = g.inputs.take(k);
            &&& assembly::slot_port(n, name) == if assembly::slot_port(o, name) is Some {
                Some(port)
            } else {
                None
            }
            &&& other != name ==> assembly::slot_port(n, other) == assembly::slot_port(o, other)
        }),
    decreases k,
{
    let n = g.retyped(name, port).inputs.take(k);
    let o = g.inputs.take(k);
    if k > 0 {
        lemma_retyped(g, name, port, other, k - 1);
        assert(n.drop_last() =~= g.retyped(name, port).inputs.take(k - 1));
        assert(o.drop_last() =~= g.inputs.take(k - 1));
        assert(o.last() == g.inputs[k - 1]);
        assert(n.last() == g.retyped(name, port).inputs[k - 1]);
    }
}

/// Giving an input another type gives it that type where it is there,
/// makes none where it is not, and leaves every other input.
pub proof fn law_retyping(g: GraphV, name: Seq<char>, port: PortType, other: Seq<char>)
    ensures
        g.retyped(name, port).has_input(name) <==> g.has_input(name),
        g.has_input(name) ==> g.retyped(name, port).input_type(name) == Some(port),
        other != name ==> g.retyped(name, port).input_type(other) == g.input_type(other),
        g.retyped(name, port).inputs.len() == g.inputs.len(),
        forall|i: int|
            0 <= i < g.inputs.len() ==> (#[trigger] g.retyped(name, port).inputs[i]).name
                == g.inputs[i].name && g.retyped(name, port).inputs[i].default
                == g.inputs[i].default && g.retyped(name, port).inputs[i].kind
                == g.inputs[i].kind,
{
    lemma_retyped(g, name, port, other, g.inputs.len() as int);
    assert(g.inputs.take(g.inputs.len() as int) =~= g.inputs);
    let n = g.retyped(name, port).inputs;
    assert(n.take(g.inputs.len() as int) =~= n);
}

/// The output of a constant has the type of the value that it holds.
pub proof fn law_constant_port(v: u64, x: Float64, s: Seq<char>)
    ensures
        assembly::kind_port(KindV::ConstU64(v), 0) == embedding::datum_port(DatumV::U64(v)),
        assembly::kind_port(KindV::ConstF64(x), 0) == embedding::datum_port(DatumV::F64(x)),
        assembly::kind_port(KindV::ConstStr(s), 0) == embedding::datum_port(DatumV::Str(s)),
{
}

/// A node of one output has none but the first.
pub proof fn law_one_output(k: KindV, port: nat)
    ensures
        !(k is Built) ==> (assembly::kind_port(k, port) is Some <==> port == 0),
        k matches KindV::Built(b) ==> (assembly::kind_port(k, port) is Some <==> port
            < b.outs.len()),
        k matches KindV::Built(b) && port < b.outs.len() ==> assembly::kind_port(k, port) == Some(
            k->Built_0.outs[port as int],
        ),
{
}

/// The inputs that a graph starts with are those of its names, in their
/// order, and each is an integer that the caller writes.
pub proof fn law_graph_of_inputs(names: Seq<Seq<char>>, i: int)
    requires
        0 <= i < names.len(),
    ensures
        ({
            let g = GraphV::of_inputs(names);
            &&& g.inputs.len() == names.len()
            &&& g.inputs[i].name == names[i]
            &&& g.inputs[i].kind is Coordinate
            &&& Some(g.inputs[i].port) == embedding::datum_port(g.inputs[i].default)
            &&& g.inputs[i].port is U64
            &&& g.nodes.len() == 0
            &&& g.outputs.len() == 0
        }),
{
}

} // verus!
