//! The state of lowering, and what lowering takes from outside.
//!
//! Lowering walks a program and records a graph. What the node library
//! knows is asked of a toolbox: the signature of a function, the node that
//! a call makes, the body of a module, the rewriting of a cursor.
use crate::chars;
use crate::dsl::assembly;
use crate::dsl::assembly::{
    BuiltNode, BuiltV, GraphV, KindV, NodeKind, PolydatAssembler, WireRef, WireV,
};
use crate::dsl::ast::{Arg, ArgV, Expr, ExprV};
use crate::dsl::cursor_sugar::{CursorSugar, SugarV};
use crate::dsl::factory::{ConstArg, ConstV};
use crate::dsl::pragmas::{PragmaSet, PragmaV};
use crate::dsl::registry::FuncSig;
use crate::dsl::schema;
use crate::dsl::schema::{DeferredExtent, DeferredV, SchemaV, SourceSchema};
use crate::value::PortType;
use vstd::prelude::*;

verus! {

/// What lowering has recorded so far.
#[derive(Debug)]
pub struct Compiler {
    /// The names that are inputs.
    pub input_names: Vec<String>,
    /// The names that are bound.
    pub all_names: Vec<String>,
    /// The names that were made up, in order.
    pub handed: Vec<String>,
    /// The name that is being bound.
    pub current_binding: Option<String>,
    pub graph: PolydatAssembler,
    /// The cursors.
    pub cursor_schemas: Vec<SourceSchema>,
    /// The cursors whose extent has to wait.
    pub deferred_extents: Vec<DeferredExtent>,
    /// A limit on every cursor.
    pub cursor_limit: Option<u64>,
    pub strict: bool,
    pub source_text: String,
    pub context_label: String,
    pub pragmas: PragmaSet,
}

/// The content of the state.
#[verifier::ext_equal]
pub struct CompilerV {
    pub input_names: Seq<Seq<char>>,
    pub all_names: Seq<Seq<char>>,
    pub handed: Seq<Seq<char>>,
    pub current: Option<Seq<char>>,
    pub graph: GraphV,
    pub schemas: Seq<SchemaV>,
    pub deferred: Seq<DeferredV>,
    pub limit: Option<u64>,
    pub strict: bool,
    pub source: Seq<char>,
    pub label: Seq<char>,
    pub pragmas: Seq<Seq<PragmaV>>,
}

impl View for Compiler {
    type V = CompilerV;

    open spec fn view(&self) -> CompilerV {
        CompilerV {
            input_names: chars::texts(self.input_names@),
            all_names: chars::texts(self.all_names@),
            handed: chars::texts(self.handed@),
            current: match self.current_binding {
                Some(s) => Some(s@),
                None => None,
            },
            graph: self.graph@,
            schemas: schema::schema_views(self.cursor_schemas@),
            deferred: schema::deferred_views(self.deferred_extents@),
            limit: self.cursor_limit,
            strict: self.strict,
            source: self.source_text@,
            label: self.context_label@,
            pragmas: self.pragmas@,
        }
    }
}

/// The content of an outcome.
pub open spec fn told<A>(r: Result<A, String>) -> Result<A, Seq<char>> {
    match r {
        Ok(a) => Ok(a),
        Err(e) => Err(e@),
    }
}

/// What lowering takes from outside.
pub trait Toolbox {
    /// The signature of a function.
    spec fn signature(&self, name: Seq<char>) -> Option<FuncSig>;

    /// The node that a call makes, or why it makes none.
    spec fn built(
        &self,
        binding: Option<Seq<char>>,
        func: Seq<char>,
        wires: Seq<WireV>,
        types: Seq<PortType>,
        consts: Seq<ConstV>,
    ) -> Result<BuiltV, Seq<char>>;

    /// The state after a module of this name was put in place of a call,
    /// and whether there is one.
    spec fn inlined(
        &self,
        c: CompilerV,
        func: Seq<char>,
        args: Seq<ArgV>,
        targets: Seq<Seq<char>>,
    ) -> (CompilerV, Result<bool, Seq<char>>);

    /// What the constructor of a cursor is rewritten to, if it is.
    spec fn rewritten(&self, cursor: Seq<char>, constructor: ExprV) -> Result<
        Option<SugarV>,
        Seq<char>,
    >;

    /// The signature of the function `name`.
    fn lookup(&self, name: &str) -> (r: Option<&FuncSig>)
        ensures
            match r {
                Some(sig) => self.signature(name@) == Some(*sig),
                None => self.signature(name@) is None,
            },
    ;

    /// The node that a call of `func` makes. `binding` is the name that is
    /// being bound, where the node may note it.
    fn build_node(
        &self,
        binding: Option<&str>,
        func: &str,
        wires: &Vec<WireRef>,
        types: &Vec<PortType>,
        consts: &Vec<ConstArg>,
    ) -> (r: Result<BuiltNode, String>)
        ensures
            built_view(r) == self.built(
                maybe_str(binding),
                func@,
                assembly::wire_views(wires@),
                types@,
                crate::dsl::factory::const_views(consts@),
            ),
    ;

    /// Puts the module `func` in place of a call of it, if there is one.
    fn try_inline_module(
        &self,
        c: &mut Compiler,
        func: &str,
        args: &Vec<Arg>,
        targets: &Vec<String>,
    ) -> (r: Result<bool, String>)
        ensures
            (final(c)@, told(r)) == self.inlined(
                old(c)@,
                func@,
                crate::dsl::ast::arg_views(args@),
                chars::texts(targets@),
            ),
    ;

    /// Rewrites the constructor of a cursor, if a rule of this toolbox does.
    fn rewrite_cursor(&self, cursor: &str, constructor: &Expr) -> (r: Result<
        Option<CursorSugar>,
        String,
    >)
        ensures
            crate::dsl::cursor_sugar::sugar_view(r) == self.rewritten(cursor@, constructor@),
    ;
}

/// The content of a text slice that may be missing.
pub open spec fn maybe_str(s: Option<&str>) -> Option<Seq<char>> {
    match s {
        Some(t) => Some(t@),
        None => None,
    }
}

/// The content of the outcome of making a node.
pub open spec fn built_view(r: Result<BuiltNode, String>) -> Result<BuiltV, Seq<char>> {
    match r {
        Ok(b) => Ok(b@),
        Err(e) => Err(e@),
    }
}

// ---------------------------------------------------------------------
// Small steps
// ---------------------------------------------------------------------

/// The name of the projection of a source.
pub open spec fn field_wire(source: Seq<char>, field: Seq<char>) -> Seq<char> {
    source + "__"@ + field
}

/// The name of the projection `field` of `source`.
pub fn field_name(source: &str, field: &str) -> (r: String)
    ensures
        r@ == field_wire(source@, field@),
{
    let mut out: String = source.to_owned();
    out.append("__");
    out.append(field);
    out
}

impl CompilerV {
    /// The next name that is made up.
    pub open spec fn anon(self) -> Seq<char> {
        match self.current {
            Some(b) => b + "__anon_"@ + chars::decimal(self.handed.len()),
            None => "__anon_"@ + chars::decimal(self.handed.len()),
        }
    }

    /// The state after a name was made up.
    pub open spec fn took(self, name: Seq<char>) -> CompilerV {
        CompilerV { handed: self.handed.push(name), ..self }
    }

    /// The state with one more node.
    pub open spec fn node(self, name: Seq<char>, kind: KindV, wires: Seq<WireV>) -> CompilerV {
        CompilerV { graph: self.graph.with_node(name, kind, wires), ..self }
    }

    /// The state with one more node that is a binding.
    pub open spec fn bind_node(
        self,
        name: Seq<char>,
        kind: KindV,
        wires: Seq<WireV>,
    ) -> CompilerV {
        CompilerV { all_names: self.all_names.push(name), ..self.node(name, kind, wires) }
    }

    /// The state with one more node of a made-up name.
    pub open spec fn anon_node(self, kind: KindV, wires: Seq<WireV>) -> CompilerV {
        self.took(self.anon()).node(self.anon(), kind, wires)
    }

    /// Where a name stands for: an input, or a node.
    pub open spec fn wire_of(self, id: Seq<char>) -> WireV {
        if self.input_names.contains(id) {
            WireV::Input(id)
        } else {
            WireV::Node(id, 0)
        }
    }
}

/// Whether `name` is among `parts`.
pub fn listed(parts: &Vec<String>, name: &str) -> (r: bool)
    ensures
        r == chars::texts(parts@).contains(name@),
{
    let mut i: usize = 0;
    while i < parts.len()
        invariant
            i <= parts@.len(),
            forall|k: int| 0 <= k < i ==> (#[trigger] parts@[k])@ != name@,
        decreases parts.len() - i,
    {
        if *parts[i].as_str() == *name {
            assert(chars::texts(parts@)[i as int] == name@);
            return true;
        }
        i = i + 1;
    }
    assert forall|k: int| 0 <= k < chars::texts(parts@).len() implies chars::texts(parts@)[k]
        != name@ by {
        assert(parts@[k]@ != name@);
    }
    false
}

/// Adds `name` to `parts`.
pub fn add_name(parts: &mut Vec<String>, name: &str)
    ensures
        chars::texts(final(parts)@) == chars::texts(old(parts)@).push(name@),
{
    let ghost before = parts@;
    parts.push(name.to_owned());
    assert(chars::texts(parts@) =~= chars::texts(before).push(name@));
}

/// One wire.
pub fn one_wire(w: WireRef) -> (r: Vec<WireRef>)
    ensures
        assembly::wire_views(r@) == seq![w@],
{
    let ghost shown = w@;
    let mut r: Vec<WireRef> = Vec::new();
    r.push(w);
    assert(assembly::wire_views(r@) =~= seq![shown]);
    r
}

/// No wire.
pub fn no_wires() -> (r: Vec<WireRef>)
    ensures
        assembly::wire_views(r@) == Seq::<WireV>::empty(),
{
    let r: Vec<WireRef> = Vec::new();
    assert(assembly::wire_views(r@) =~= Seq::<WireV>::empty());
    r
}

/// Two wires.
pub fn two_wires(a: WireRef, b: WireRef) -> (r: Vec<WireRef>)
    ensures
        assembly::wire_views(r@) == seq![a@, b@],
{
    let ghost shown = seq![a@, b@];
    let mut r: Vec<WireRef> = Vec::new();
    r.push(a);
    r.push(b);
    assert(assembly::wire_views(r@) =~= shown);
    r
}

/// One name.
pub fn one_name(name: &str) -> (r: Vec<String>)
    ensures
        chars::texts(r@) == seq![name@],
        r@.len() == 1,
{
    let mut r: Vec<String> = Vec::new();
    r.push(name.to_owned());
    assert(chars::texts(r@) =~= seq![name@]);
    r
}

impl Compiler {
    /// Makes up a name.
    pub fn anon_name(&mut self) -> (r: String)
        ensures
            r@ == old(self)@.anon(),
            final(self)@ == old(self)@.took(r@),
    {
        let n: usize = self.handed.len();
        let mut out: String = match &self.current_binding {
            Some(b) => {
                let mut s: String = b.clone();
                s.append("__anon_");
                s
            },
            None => "__anon_".to_owned(),
        };
        out.append(chars::usize_text(n).as_str());
        add_name(&mut self.handed, out.as_str());
        out
    }

    /// Adds a node.
    pub fn add_node(&mut self, name: &str, kind: NodeKind, wires: Vec<WireRef>)
        ensures
            final(self)@ == old(self)@.node(name@, kind@, assembly::wire_views(wires@)),
    {
        self.graph.add_node(name, kind, wires);
    }

    /// Adds a node that is a binding.
    pub fn add_binding(&mut self, name: &str, kind: NodeKind, wires: Vec<WireRef>)
        ensures
            final(self)@ == old(self)@.bind_node(name@, kind@, assembly::wire_views(wires@)),
    {
        self.graph.add_node(name, kind, wires);
        add_name(&mut self.all_names, name);
    }

    /// Adds a node of a made-up name.
    pub fn add_anon(&mut self, kind: NodeKind, wires: Vec<WireRef>) -> (r: WireRef)
        ensures
            r@ == WireV::Node(old(self)@.anon(), 0),
            final(self)@ == old(self)@.anon_node(kind@, assembly::wire_views(wires@)),
    {
        let name: String = self.anon_name();
        self.add_node(name.as_str(), kind, wires);
        WireRef::node(name.as_str())
    }

    /// Where `id` stands for.
    pub fn wire_of(&self, id: &str) -> (r: WireRef)
        ensures
            r@ == self@.wire_of(id@),
    {
        if listed(&self.input_names, id) {
            WireRef::input(id)
        } else {
            WireRef::node(id)
        }
    }
}

} // verus!
