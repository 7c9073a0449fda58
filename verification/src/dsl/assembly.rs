//! The graph that a program is lowered to.
//!
//! The graph is recorded step by step: inputs, nodes, outputs and their
//! modifiers, each in the order in which it was added. A later record of a
//! name stands in place of an earlier one.
use crate::chars;
use crate::dsl::ast::BindingModifier;
use crate::dsl::factory;
use crate::dsl::factory::{ConstArg, ConstV};
use crate::float::Float64;
use crate::value::{Datum, DatumV, PortType};
use vstd::prelude::*;

verus! {

// ---------------------------------------------------------------------
// Wires, nodes and inputs
// ---------------------------------------------------------------------

/// Where a wire comes from: an input, or an output of a node.
#[derive(Debug, PartialEq)]
pub enum WireRef {
    Input(String),
    Node(String, usize),
}

/// The content of a wire reference.
#[verifier::ext_equal]
pub enum WireV {
    Input(Seq<char>),
    Node(Seq<char>, nat),
}

impl View for WireRef {
    type V = WireV;

    open spec fn view(&self) -> WireV {
        match *self {
            WireRef::Input(n) => WireV::Input(n@),
            WireRef::Node(n, p) => WireV::Node(n@, p as nat),
        }
    }
}

/// The contents of a run of wire references.
pub open spec fn wire_views(s: Seq<WireRef>) -> Seq<WireV> {
    Seq::new(s.len(), |i: int| s[i]@)
}

impl WireRef {
    /// The input `name`.
    pub fn input(name: &str) -> (r: WireRef)
        ensures
            r@ == WireV::Input(name@),
    {
        WireRef::Input(name.to_owned())
    }

    /// The first output of the node `name`.
    pub fn node(name: &str) -> (r: WireRef)
        ensures
            r@ == WireV::Node(name@, 0),
    {
        WireRef::Node(name.to_owned(), 0)
    }

    /// An output of the node `name`.
    pub fn node_port(name: &str, port: usize) -> (r: WireRef)
        ensures
            r@ == WireV::Node(name@, port as nat),
    {
        WireRef::Node(name.to_owned(), port)
    }

    /// The same reference.
    pub fn copy(&self) -> (r: WireRef)
        ensures
            r@ == self@,
    {
        match self {
            WireRef::Input(n) => WireRef::Input(n.clone()),
            WireRef::Node(n, p) => WireRef::Node(n.clone(), *p),
        }
    }
}

/// A node that the registry made: the function, its constants and the types
/// of its ports.
#[derive(Debug, PartialEq)]
pub struct BuiltNode {
    pub func: String,
    pub consts: Vec<ConstArg>,
    pub ins: Vec<PortType>,
    pub outs: Vec<PortType>,
}

/// The content of a node that the registry made.
#[verifier::ext_equal]
pub struct BuiltV {
    pub func: Seq<char>,
    pub consts: Seq<ConstV>,
    pub ins: Seq<PortType>,
    pub outs: Seq<PortType>,
}

impl View for BuiltNode {
    type V = BuiltV;

    open spec fn view(&self) -> BuiltV {
        BuiltV {
            func: self.func@,
            consts: factory::const_views(self.consts@),
            ins: self.ins@,
            outs: self.outs@,
        }
    }
}

/// What a node computes.
#[derive(Debug, PartialEq)]
pub enum NodeKind {
    ConstU64(u64),
    ConstF64(Float64),
    ConstStr(String),
    /// Hands its input on.
    Identity(PortType),
    /// Hands its input on, under a name.
    PortPassthrough(String, PortType),
    /// Widens to a double.
    ToF64,
    /// Reads an integer.
    StrToU64,
    /// Fills a format with this many texts.
    Printf(String, usize),
    /// Hands a cursor on, with its extent clamped.
    CursorLimit(u64),
    /// A node that the registry made.
    Built(BuiltNode),
}

/// The content of what a node computes.
#[verifier::ext_equal]
pub enum KindV {
    ConstU64(u64),
    ConstF64(Float64),
    ConstStr(Seq<char>),
    Identity(PortType),
    PortPassthrough(Seq<char>, PortType),
    ToF64,
    StrToU64,
    Printf(Seq<char>, nat),
    CursorLimit(u64),
    Built(BuiltV),
}

impl View for NodeKind {
    type V = KindV;

    open spec fn view(&self) -> KindV {
        match *self {
            NodeKind::ConstU64(v) => KindV::ConstU64(v),
            NodeKind::ConstF64(v) => KindV::ConstF64(v),
            NodeKind::ConstStr(s) => KindV::ConstStr(s@),
            NodeKind::Identity(t) => KindV::Identity(t),
            NodeKind::PortPassthrough(n, t) => KindV::PortPassthrough(n@, t),
            NodeKind::ToF64 => KindV::ToF64,
            NodeKind::StrToU64 => KindV::StrToU64,
            NodeKind::Printf(f, n) => KindV::Printf(f@, n as nat),
            NodeKind::CursorLimit(n) => KindV::CursorLimit(n),
            NodeKind::Built(b) => KindV::Built(b@),
        }
    }
}

/// The type of an output of a node.
pub open spec fn kind_port(k: KindV, port: nat) -> Option<PortType> {
    match k {
        KindV::Built(b) => if port < b.outs.len() {
            Some(b.outs[port as int])
        } else {
            None
        },
        _ => if port != 0 {
            None
        } else {
            match k {
                KindV::ConstU64(_) | KindV::StrToU64 | KindV::CursorLimit(_) => Some(
                    PortType::U64,
                ),
                KindV::ConstF64(_) | KindV::ToF64 => Some(PortType::F64),
                KindV::ConstStr(_) | KindV::Printf(_, _) => Some(PortType::Str),
                KindV::Identity(t) => Some(t),
                KindV::PortPassthrough(_, t) => Some(t),
                KindV::Built(_) => None,
            }
        },
    }
}

impl NodeKind {
    /// The type of the output `port`.
    pub fn port(&self, port: usize) -> (r: Option<PortType>)
        ensures
            r == kind_port(self@, port as nat),
    {
        match self {
            NodeKind::Built(b) => if port < b.outs.len() {
                Some(b.outs[port])
            } else {
                None
            },
            _ => if port != 0 {
                None
            } else {
                match self {
                    NodeKind::ConstU64(_) | NodeKind::StrToU64 | NodeKind::CursorLimit(_) => Some(
                        PortType::U64,
                    ),
                    NodeKind::ConstF64(_) | NodeKind::ToF64 => Some(PortType::F64),
                    NodeKind::ConstStr(_) | NodeKind::Printf(_, _) => Some(PortType::Str),
                    NodeKind::Identity(t) => Some(*t),
                    NodeKind::PortPassthrough(_, t) => Some(*t),
                    NodeKind::Built(_) => None,
                }
            },
        }
    }
}

/// A node of the graph.
#[derive(Debug, PartialEq)]
pub struct NodeEntry {
    pub name: String,
    pub kind: NodeKind,
    pub wires: Vec<WireRef>,
}

/// The content of a node of the graph.
#[verifier::ext_equal]
pub struct NodeV {
    pub name: Seq<char>,
    pub kind: KindV,
    pub wires: Seq<WireV>,
}

impl View for NodeEntry {
    type V = NodeV;

    open spec fn view(&self) -> NodeV {
        NodeV { name: self.name@, kind: self.kind@, wires: wire_views(self.wires@) }
    }
}

/// Who writes an input.
#[derive(Clone, Copy, Debug, PartialEq, Eq, Structural)]
pub enum InputKind {
    /// The caller, on every cycle.
    Coordinate,
    /// Something outside, at any time.
    ExternalWrite,
    /// The scope around, when the scope starts.
    IterationExtern,
}

/// An input of the graph.
#[derive(Debug, PartialEq)]
pub struct InputSlot {
    pub name: String,
    pub default: Datum,
    pub port: PortType,
    pub kind: InputKind,
}

/// The content of an input of the graph.
#[verifier::ext_equal]
pub struct SlotV {
    pub name: Seq<char>,
    pub default: DatumV,
    pub port: PortType,
    pub kind: InputKind,
}

impl View for InputSlot {
    type V = SlotV;

    open spec fn view(&self) -> SlotV {
        SlotV { name: self.name@, default: self.default@, port: self.port, kind: self.kind }
    }
}

/// The contents of a run of nodes.
pub open spec fn node_views(s: Seq<NodeEntry>) -> Seq<NodeV> {
    Seq::new(s.len(), |i: int| s[i]@)
}

/// The contents of a run of inputs.
pub open spec fn slot_views(s: Seq<InputSlot>) -> Seq<SlotV> {
    Seq::new(s.len(), |i: int| s[i]@)
}

/// The contents of a run of outputs.
pub open spec fn output_views(s: Seq<(String, WireRef)>) -> Seq<(Seq<char>, WireV)> {
    Seq::new(s.len(), |i: int| (s[i].0@, s[i].1@))
}

/// The contents of a run of modifiers.
pub open spec fn modifier_views(s: Seq<(String, BindingModifier)>) -> Seq<
    (Seq<char>, BindingModifier),
> {
    Seq::new(s.len(), |i: int| (s[i].0@, s[i].1))
}

// ---------------------------------------------------------------------
// The graph
// ---------------------------------------------------------------------

/// A graph in the making.
#[derive(Debug)]
pub struct PolydatAssembler {
    pub inputs: Vec<InputSlot>,
    pub nodes: Vec<NodeEntry>,
    pub outputs: Vec<(String, WireRef)>,
    pub modifiers: Vec<(String, BindingModifier)>,
    pub const_outputs: Vec<String>,
    pub strict_types: bool,
    pub strict_values: bool,
    pub source: String,
    pub context: String,
}

/// The content of a graph.
#[verifier::ext_equal]
pub struct GraphV {
    pub inputs: Seq<SlotV>,
    pub nodes: Seq<NodeV>,
    pub outputs: Seq<(Seq<char>, WireV)>,
    pub modifiers: Seq<(Seq<char>, BindingModifier)>,
    pub const_outputs: Seq<Seq<char>>,
    pub strict_types: bool,
    pub strict_values: bool,
    pub source: Seq<char>,
    pub context: Seq<char>,
}

impl View for PolydatAssembler {
    type V = GraphV;

    open spec fn view(&self) -> GraphV {
        GraphV {
            inputs: slot_views(self.inputs@),
            nodes: node_views(self.nodes@),
            outputs: output_views(self.outputs@),
            modifiers: modifier_views(self.modifiers@),
            const_outputs: chars::texts(self.const_outputs@),
            strict_types: self.strict_types,
            strict_values: self.strict_values,
            source: self.source@,
            context: self.context@,
        }
    }
}

/// The type of the latest input of a name.
pub open spec fn slot_port(s: Seq<SlotV>, name: Seq<char>) -> Option<PortType>
    decreases s.len(),
{
    if s.len() == 0 {
        None
    } else if s.last().name == name {
        Some(s.last().port)
    } else {
        slot_port(s.drop_last(), name)
    }
}

/// The type of an output of the latest node of a name.
pub open spec fn node_port(s: Seq<NodeV>, name: Seq<char>, port: nat) -> Option<PortType>
    decreases s.len(),
{
    if s.len() == 0 {
        None
    } else if s.last().name == name {
        kind_port(s.last().kind, port)
    } else {
        node_port(s.drop_last(), name, port)
    }
}

/// The modifiers of the latest record of a name.
pub open spec fn modifier_of(
    s: Seq<(Seq<char>, BindingModifier)>,
    name: Seq<char>,
) -> BindingModifier
    decreases s.len(),
{
    if s.len() == 0 {
        BindingModifier::plain()
    } else if s.last().0 == name {
        s.last().1
    } else {
        modifier_of(s.drop_last(), name)
    }
}

/// An input that the caller writes.
pub open spec fn coordinate(name: Seq<char>) -> SlotV {
    SlotV { name, default: DatumV::U64(0), port: PortType::U64, kind: InputKind::Coordinate }
}

impl GraphV {
    /// A graph of nothing but inputs that the caller writes.
    pub open spec fn of_inputs(names: Seq<Seq<char>>) -> GraphV {
        GraphV {
            inputs: Seq::new(names.len(), |i: int| coordinate(names[i])),
            nodes: Seq::empty(),
            outputs: Seq::empty(),
            modifiers: Seq::empty(),
            const_outputs: Seq::empty(),
            strict_types: false,
            strict_values: false,
            source: Seq::empty(),
            context: Seq::empty(),
        }
    }

    /// The graph with one more input.
    pub open spec fn with_input(self, slot: SlotV) -> GraphV {
        GraphV { inputs: self.inputs.push(slot), ..self }
    }

    /// The graph with another type for the inputs of a name.
    pub open spec fn retyped(self, name: Seq<char>, port: PortType) -> GraphV {
        GraphV {
            inputs: Seq::new(
                self.inputs.len(),
                |i: int|
                    if self.inputs[i].name == name {
                        SlotV { port, ..self.inputs[i] }
                    } else {
                        self.inputs[i]
                    },
            ),
            ..self
        }
    }

    /// The graph with one more node.
    pub open spec fn with_node(self, name: Seq<char>, kind: KindV, wires: Seq<WireV>) -> GraphV {
        GraphV { nodes: self.nodes.push(NodeV { name, kind, wires }), ..self }
    }

    /// The graph with one more output.
    pub open spec fn with_output(self, name: Seq<char>, wire: WireV) -> GraphV {
        GraphV { outputs: self.outputs.push((name, wire)), ..self }
    }

    /// The graph with the modifiers of an output.
    pub open spec fn with_modifier(self, name: Seq<char>, m: BindingModifier) -> GraphV {
        GraphV { modifiers: self.modifiers.push((name, m)), ..self }
    }

    /// The graph with one more constant output.
    pub open spec fn with_const(self, name: Seq<char>) -> GraphV {
        GraphV { const_outputs: self.const_outputs.push(name), ..self }
    }

    /// The type of an input.
    pub open spec fn input_type(self, name: Seq<char>) -> Option<PortType> {
        slot_port(self.inputs, name)
    }

    /// The type of the first output of a node.
    pub open spec fn output_type(self, name: Seq<char>) -> Option<PortType> {
        node_port(self.nodes, name, 0)
    }

    /// The type of a wire.
    pub open spec fn wire_type(self, w: WireV) -> Option<PortType> {
        match w {
            WireV::Input(n) => self.input_type(n),
            WireV::Node(n, p) => node_port(self.nodes, n, p),
        }
    }

    /// Whether there is an input of a name.
    pub open spec fn has_input(self, name: Seq<char>) -> bool {
        slot_port(self.inputs, name) is Some
    }
}

/// The types of a run of wires; that of a wire from nowhere is an integer.
pub open spec fn wire_types(g: GraphV, wires: Seq<WireV>) -> Seq<PortType> {
    Seq::new(
        wires.len(),
        |i: int|
            match g.wire_type(wires[i]) {
                Some(t) => t,
                None => PortType::U64,
            },
    )
}

impl PolydatAssembler {
    /// A graph of nothing but the inputs `names`.
    pub fn new(names: &Vec<String>) -> (r: PolydatAssembler)
        ensures
            r@ == GraphV::of_inputs(chars::texts(names@)),
    {
        let mut inputs: Vec<InputSlot> = Vec::new();
        let mut i: usize = 0;
        while i < names.len()
            invariant
                i <= names@.len(),
                inputs@.len() == i,
                forall|k: int|
                    0 <= k < i ==> (#[trigger] inputs@[k])@ == coordinate(names@[k]@),
            decreases names.len() - i,
        {
            inputs.push(
                InputSlot {
                    name: names[i].clone(),
                    default: Datum::U64(0),
                    port: PortType::U64,
                    kind: InputKind::Coordinate,
                },
            );
            i = i + 1;
        }
        let r: PolydatAssembler = PolydatAssembler {
            inputs,
            nodes: Vec::new(),
            outputs: Vec::new(),
            modifiers: Vec::new(),
            const_outputs: Vec::new(),
            strict_types: false,
            strict_values: false,
            source: String::new(),
            context: String::new(),
        };
        assert(r@ =~= GraphV::of_inputs(chars::texts(names@)));
        r
    }

    /// Adds an input.
    pub fn add_input(&mut self, name: &str, default: Datum, port: PortType, kind: InputKind)
        ensures
            final(self)@ == old(self)@.with_input(SlotV { name: name@, default: default@, port, kind }),
    {
        let slot: InputSlot = InputSlot { name: name.to_owned(), default, port, kind };
        let ghost before = self.inputs@;
        let ghost shown = slot@;
        self.inputs.push(slot);
        assert(slot_views(self.inputs@) =~= slot_views(before).push(shown));
    }

    /// Gives the inputs `name` another type.
    pub fn set_input_type(&mut self, name: &str, port: PortType)
        ensures
            final(self)@ == old(self)@.retyped(name@, port),
    {
        let ghost start = self@;
        let mut i: usize = 0;
        while i < self.inputs.len()
            invariant
                i <= self.inputs@.len(),
                self.inputs@.len() == start.inputs.len(),
                start == old(self)@,
                self@ == (GraphV { inputs: slot_views(self.inputs@), ..start }),
                forall|k: int|
                    0 <= k < i ==> (#[trigger] self.inputs@[k])@ == start.retyped(
                        name@,
                        port,
                    ).inputs[k],
                forall|k: int|
                    i <= k < start.inputs.len() ==> (#[trigger] self.inputs@[k])@
                        == start.inputs[k],
            decreases self.inputs.len() - i,
        {
            if *self.inputs[i].name.as_str() == *name {
                let slot: InputSlot = InputSlot {
                    name: self.inputs[i].name.clone(),
                    default: self.inputs[i].default.copy(),
                    port,
                    kind: self.inputs[i].kind,
                };
                self.inputs.set(i, slot);
            }
            i = i + 1;
        }
        assert(slot_views(self.inputs@) =~= start.retyped(name@, port).inputs);
    }

    /// Adds a node.
    pub fn add_node(&mut self, name: &str, kind: NodeKind, wires: Vec<WireRef>)
        ensures
            final(self)@ == old(self)@.with_node(name@, kind@, wire_views(wires@)),
    {
        let entry: NodeEntry = NodeEntry { name: name.to_owned(), kind, wires };
        let ghost before = self.nodes@;
        let ghost shown = entry@;
        self.nodes.push(entry);
        assert(node_views(self.nodes@) =~= node_views(before).push(shown));
    }

    /// Adds an output.
    pub fn add_output(&mut self, name: &str, wire: WireRef)
        ensures
            final(self)@ == old(self)@.with_output(name@, wire@),
    {
        let ghost before = self.outputs@;
        let ghost shown = wire@;
        self.outputs.push((name.to_owned(), wire));
        assert(output_views(self.outputs@) =~= output_views(before).push((name@, shown)));
    }

    /// Records the modifiers of an output.
    pub fn set_output_modifier(&mut self, name: &str, m: BindingModifier)
        ensures
            final(self)@ == old(self)@.with_modifier(name@, m),
    {
        let ghost before = self.modifiers@;
        self.modifiers.push((name.to_owned(), m));
        assert(modifier_views(self.modifiers@) =~= modifier_views(before).push((name@, m)));
    }

    /// Records that an output is constant.
    pub fn mark_const_output(&mut self, name: &str)
        ensures
            final(self)@ == old(self)@.with_const(name@),
    {
        let ghost before = self.const_outputs@;
        self.const_outputs.push(name.to_owned());
        assert(chars::texts(self.const_outputs@) =~= chars::texts(before).push(name@));
    }

    /// Records which assertions wires get.
    pub fn set_strict_wires(&mut self, types: bool, values: bool)
        ensures
            final(self)@ == (GraphV { strict_types: types, strict_values: values, ..old(self)@ }),
    {
        self.strict_types = types;
        self.strict_values = values;
    }

    /// Records the source text and where it comes from.
    pub fn set_context(&mut self, source: &str, context: &str)
        ensures
            final(self)@ == (GraphV { source: source@, context: context@, ..old(self)@ }),
    {
        self.source = source.to_owned();
        self.context = context.to_owned();
    }

    /// The type of the input `name`.
    pub fn input_type(&self, name: &str) -> (r: Option<PortType>)
        ensures
            r == self@.input_type(name@),
    {
        let ghost all = slot_views(self.inputs@);
        let mut i: usize = self.inputs.len();
        assert(all.take(i as int) =~= all);
        while i > 0
            invariant
                i <= self.inputs@.len(),
                all == slot_views(self.inputs@),
                slot_port(all, name@) == slot_port(all.take(i as int), name@),
            decreases i,
        {
            assert(all.take(i as int).drop_last() =~= all.take(i - 1));
            assert(all.take(i as int).last() == self.inputs@[i - 1]@);
            i = i - 1;
            if *self.inputs[i].name.as_str() == *name {
                return Some(self.inputs[i].port);
            }
        }
        None
    }

    /// The type of the output `port` of the node `name`.
    pub fn node_port(&self, name: &str, port: usize) -> (r: Option<PortType>)
        ensures
            r == node_port(self@.nodes, name@, port as nat),
    {
        let ghost all = node_views(self.nodes@);
        let mut i: usize = self.nodes.len();
        assert(all.take(i as int) =~= all);
        while i > 0
            invariant
                i <= self.nodes@.len(),
                all == node_views(self.nodes@),
                node_port(all, name@, port as nat) == node_port(
                    all.take(i as int),
                    name@,
                    port as nat,
                ),
            decreases i,
        {
            assert(all.take(i as int).drop_last() =~= all.take(i - 1));
            assert(all.take(i as int).last() == self.nodes@[i - 1]@);
            i = i - 1;
            if *self.nodes[i].name.as_str() == *name {
                return self.nodes[i].kind.port(port);
            }
        }
        None
    }

    /// The type of the first output of the node `name`.
    pub fn output_type(&self, name: &str) -> (r: Option<PortType>)
        ensures
            r == self@.output_type(name@),
    {
        self.node_port(name, 0)
    }

    /// The type of a wire.
    pub fn wire_type(&self, w: &WireRef) -> (r: Option<PortType>)
        ensures
            r == self@.wire_type(w@),
    {
        match w {
            WireRef::Input(n) => self.input_type(n.as_str()),
            WireRef::Node(n, p) => self.node_port(n.as_str(), *p),
        }
    }

    /// The types of `wires`; that of a wire from nowhere is an integer.
    pub fn wire_types(&self, wires: &Vec<WireRef>) -> (r: Vec<PortType>)
        ensures
            r@ == wire_types(self@, wire_views(wires@)),
    {
        let mut out: Vec<PortType> = Vec::new();
        let mut i: usize = 0;
        let ghost all = wire_types(self@, wire_views(wires@));
        while i < wires.len()
            invariant
                i <= wires@.len(),
                out@.len() == i,
                all == wire_types(self@, wire_views(wires@)),
                forall|k: int| 0 <= k < i ==> out@[k] == all[k],
            decreases wires.len() - i,
        {
            let t: PortType = match self.wire_type(&wires[i]) {
                Some(t) => t,
                None => PortType::U64,
            };
            out.push(t);
            i = i + 1;
        }
        assert(out@ =~= all);
        out
    }

    /// The modifiers of the output `name`.
    pub fn output_modifier(&self, name: &str) -> (r: BindingModifier)
        ensures
            r == modifier_of(self@.modifiers, name@),
    {
        let ghost all = modifier_views(self.modifiers@);
        let mut i: usize = self.modifiers.len();
        assert(all.take(i as int) =~= all);
        while i > 0
            invariant
                i <= self.modifiers@.len(),
                all == modifier_views(self.modifiers@),
                modifier_of(all, name@) == modifier_of(all.take(i as int), name@),
            decreases i,
        {
            assert(all.take(i as int).drop_last() =~= all.take(i - 1));
            i = i - 1;
            if *self.modifiers[i].0.as_str() == *name {
                return self.modifiers[i].1;
            }
        }
        BindingModifier::none()
    }
}

} // verus!
