//! Tools for templates over fixed functions and fixed sources.
use crate::chars;
use crate::comprehension::ast as algebra;
use crate::comprehension::ast::{CompV, Comprehension};
use crate::comprehension::source::{Source, SourceV};
use crate::dsl::assembly::{BuiltNode, BuiltV, KindV, NodeKind, WireRef, WireV};
use crate::dsl::ast;
use crate::dsl::ast::{Arg, ArgV, Expr, ExprV};
use crate::dsl::catalog::Catalog;
use crate::dsl::compiler::{Compiler, CompilerV, Toolbox};
use crate::dsl::cursor_sugar::{CursorSugar, SugarV};
use crate::dsl::factory::{ConstArg, ConstV};
use crate::dsl::registry::FuncSig;
use crate::dsl::template::{ForSource, ForSourceV, Reading, ReadingV};
use crate::dsl::tile::{Grammar, Names};
use crate::dsl::tile_lower;
use crate::dsl::tile_lower::{Producer, ProducerV, Reach, TileTools};
use crate::dsl::tile_ops::{EncodingV, HoleEncoding, HolePosition, TileSpec, TileSpecV};
use crate::dsl::tile_source;
use crate::value::PortType;
use vstd::prelude::*;

verus! {

/// Tools for templates: fixed functions, and sources by their text. A hole
/// holds a name, and every element is an integer.
#[derive(Debug)]
pub struct TileKit {
    pub catalog: Catalog,
    pub sources: Vec<(String, Comprehension)>,
}

/// The first source of a text.
pub open spec fn source_named(s: Seq<(String, Comprehension)>, text: Seq<char>, i: int) -> Result<
    CompV,
    Seq<char>,
>
    decreases s.len() - i,
{
    if i < 0 || i >= s.len() {
        Err("unknown source"@)
    } else if s[i].0@ == text {
        Ok(algebra::comp_view(s[i].1))
    } else {
        source_named(s, text, i + 1)
    }
}

/// The wider of two reaches.
pub open spec fn wider(a: Reach, b: Reach) -> Reach {
    if a == Reach::Continuous || b == Reach::Continuous {
        Reach::Continuous
    } else if a == Reach::Unbounded || b == Reach::Unbounded {
        Reach::Unbounded
    } else {
        Reach::Bounded
    }
}

/// How many values a source has.
pub open spec fn source_reach(s: SourceV) -> Reach {
    match s {
        SourceV::Literal(_) => Reach::Bounded,
        SourceV::IntRange(_, _, _) => Reach::Bounded,
        SourceV::Generator(_, hint) => if hint is Some {
            Reach::Bounded
        } else {
            Reach::Unbounded
        },
        SourceV::WorkloadParamList(_, hint) => if hint is Some {
            Reach::Bounded
        } else {
            Reach::Unbounded
        },
        SourceV::ContinuousInterval(_, _) => Reach::Continuous,
        SourceV::Distribution(_, _, _) => Reach::Continuous,
    }
}

/// How many tuples a comprehension has: as its widest source.
pub open spec fn comp_reach(c: CompV) -> Reach
    decreases c, 0nat,
{
    match c {
        CompV::Clause(_, s) => source_reach(s),
        CompV::Cartesian(children) => widest(children),
        CompV::Zip(children, _) => widest(children),
        CompV::Union(children) => widest(children),
        CompV::Filter(child, _) => comp_reach(*child),
        CompV::Order(child, _, _) => comp_reach(*child),
    }
}

/// The widest reach of a run of comprehensions.
pub open spec fn widest(s: Seq<CompV>) -> Reach
    decreases s, s.len(),
{
    if s.len() == 0 {
        Reach::Bounded
    } else {
        wider(widest(s.drop_last()), comp_reach(s.last()))
    }
}

/// How many tuples `c` has.
fn reach_of(c: &Comprehension) -> (r: Reach)
    ensures
        r == comp_reach(algebra::comp_view(*c)),
    decreases c, 0nat,
{
    match c {
        Comprehension::Clause { source, .. } => match source {
            Source::Literal { .. } => Reach::Bounded,
            Source::IntRange { .. } => Reach::Bounded,
            Source::Generator { cardinality_hint, .. } => if cardinality_hint.is_some() {
                Reach::Bounded
            } else {
                Reach::Unbounded
            },
            Source::WorkloadParamList { len_hint, .. } => if len_hint.is_some() {
                Reach::Bounded
            } else {
                Reach::Unbounded
            },
            Source::ContinuousInterval { .. } => Reach::Continuous,
            Source::Distribution { .. } => Reach::Continuous,
        },
        Comprehension::Cartesian { children } => reach_of_all(children),
        Comprehension::Zip { children, .. } => reach_of_all(children),
        Comprehension::Union { children } => reach_of_all(children),
        Comprehension::Filter { child, .. } => reach_of(child),
        Comprehension::Order { child, .. } => reach_of(child),
    }
}

/// The widest reach of a run of comprehensions.
fn reach_of_all(v: &Vec<Comprehension>) -> (r: Reach)
    ensures
        r == widest(algebra::comp_views(v@)),
    decreases v, 1nat,
{
    let ghost all = algebra::comp_views(v@);
    let mut out: Reach = Reach::Bounded;
    let mut i: usize = 0;
    proof {
        algebra::lemma_comp_views(v@);
        assert(all.take(0) =~= Seq::<CompV>::empty());
    }
    while i < v.len()
        invariant
            i <= v@.len(),
            all == algebra::comp_views(v@),
            all.len() == v@.len(),
            forall|k: int| 0 <= k < v@.len() ==> #[trigger] all[k] == algebra::comp_view(v@[k]),
            out == widest(all.take(i as int)),
        decreases v.len() - i,
    {
        assert(decreases_to!(v@ => v@[i as int]));
        assert(decreases_to!(*v => v@));
        assert(all.take(i + 1).drop_last() =~= all.take(i as int));
        assert(all.take(i + 1).last() == all[i as int]);
        let next: Reach = reach_of(&v[i]);
        out = if out == Reach::Continuous || next == Reach::Continuous {
            Reach::Continuous
        } else if out == Reach::Unbounded || next == Reach::Unbounded {
            Reach::Unbounded
        } else {
            Reach::Bounded
        };
        i = i + 1;
    }
    assert(all.take(i as int) =~= all);
    out
}

/// How an expression prints: names, numbers, strings and calls; anything
/// else as an underscore.
pub open spec fn shown(e: ExprV) -> Seq<char>
    decreases e, 0nat,
{
    match e {
        ExprV::Ident(name, _) => name,
        ExprV::IntLit(v, _) => chars::decimal(v as nat),
        ExprV::StringLit(s, _) => "\""@ + tile_source::string_chars(s) + "\""@,
        ExprV::Call(func, args, _) => func + "("@ + shown_args(args) + ")"@,
        _ => "_"@,
    }
}

/// How a run of arguments prints.
pub open spec fn shown_args(s: Seq<ArgV>) -> Seq<char>
    decreases s, s.len(),
{
    if s.len() == 0 {
        Seq::empty()
    } else {
        proof {
            assert(decreases_to!(s => s.last()));
            assert(decreases_to!(s.last() => s.last().value));
        }
        if s.len() == 1 {
            shown(s.last().value)
        } else {
            shown_args(s.drop_last()) + ", "@ + shown(s.last().value)
        }
    }
}

/// How `e` prints.
fn show(e: &Expr) -> (r: String)
    ensures
        r@ == shown(e@),
    decreases e, 0nat,
{
    match e {
        Expr::Ident(name, _) => name.clone(),
        Expr::IntLit(v, _) => chars::u64_text(*v),
        Expr::StringLit(s, _) => {
            let mut out: String = "\"".to_owned();
            out.append(tile_source::escape_polydat_string(s.as_str()).as_str());
            out.append("\"");
            out
        },
        Expr::Call(call) => {
            let mut out: String = call.func.clone();
            out.append("(");
            let inner: String = show_args(&call.args);
            out.append(inner.as_str());
            out.append(")");
            out
        },
        _ => "_".to_owned(),
    }
}

/// How a run of arguments prints.
fn show_args(v: &Vec<Arg>) -> (r: String)
    ensures
        r@ == shown_args(ast::arg_views(v@)),
    decreases v, 1nat,
{
    let ghost all = ast::arg_views(v@);
    let mut out: String = "".to_owned();
    let mut i: usize = 0;
    proof {
        ast::lemma_arg_views(v@);
        assert(all.take(0) =~= Seq::<ArgV>::empty());
        reveal_strlit("");
        assert(out@ =~= Seq::<char>::empty());
    }
    while i < v.len()
        invariant
            i <= v@.len(),
            all == ast::arg_views(v@),
            all.len() == v@.len(),
            forall|k: int| 0 <= k < v@.len() ==> #[trigger] all[k] == ast::arg_view(v@[k]),
            out@ == shown_args(all.take(i as int)),
        decreases v.len() - i,
    {
        assert(decreases_to!(v@ => v@[i as int]));
        assert(decreases_to!(*v => v@));
        assert(all.take(i + 1).drop_last() =~= all.take(i as int));
        assert(all.take(i + 1).last() == all[i as int]);
        let part: String = match &v[i] {
            Arg::Positional(e) => show(e),
            Arg::Named(_, e) => show(e),
        };
        if i > 0 {
            out.append(", ");
            out.append(part.as_str());
        } else {
            out = part;
        }
        i = i + 1;
    }
    assert(all.take(i as int) =~= all);
    out
}

/// How an encoding is written: its name and where the hole stands.
pub open spec fn encoding_shown(e: EncodingV) -> Seq<char> {
    e.encoding + (match e.position {
        HolePosition::Value => ":value"@,
        HolePosition::InString => ":string"@,
        HolePosition::Text => ":text"@,
    })
}

impl Toolbox for TileKit {
    open spec fn signature(&self, name: Seq<char>) -> Option<FuncSig> {
        self.catalog.signature(name)
    }

    open spec fn built(
        &self,
        binding: Option<Seq<char>>,
        func: Seq<char>,
        wires: Seq<WireV>,
        types: Seq<PortType>,
        consts: Seq<ConstV>,
    ) -> Result<BuiltV, Seq<char>> {
        self.catalog.built(binding, func, wires, types, consts)
    }

    open spec fn inlined(
        &self,
        c: CompilerV,
        func: Seq<char>,
        args: Seq<ArgV>,
        targets: Seq<Seq<char>>,
    ) -> (CompilerV, Result<bool, Seq<char>>) {
        self.catalog.inlined(c, func, args, targets)
    }

    open spec fn rewritten(&self, cursor: Seq<char>, constructor: ExprV) -> Result<
        Option<SugarV>,
        Seq<char>,
    > {
        self.catalog.rewritten(cursor, constructor)
    }

    fn lookup(&self, name: &str) -> (r: Option<&FuncSig>) {
        self.catalog.lookup(name)
    }

    fn build_node(
        &self,
        binding: Option<&str>,
        func: &str,
        wires: &Vec<WireRef>,
        types: &Vec<PortType>,
        consts: &Vec<ConstArg>,
    ) -> (r: Result<BuiltNode, String>) {
        self.catalog.build_node(binding, func, wires, types, consts)
    }

    fn try_inline_module(
        &self,
        c: &mut Compiler,
        func: &str,
        args: &Vec<Arg>,
        targets: &Vec<String>,
    ) -> (r: Result<bool, String>) {
        self.catalog.try_inline_module(c, func, args, targets)
    }

    fn rewrite_cursor(&self, cursor: &str, constructor: &Expr) -> (r: Result<
        Option<CursorSugar>,
        String,
    >) {
        self.catalog.rewrite_cursor(cursor, constructor)
    }
}

impl Grammar for TileKit {
    open spec fn expression(&self, text: Seq<char>) -> Result<ReadingV, Seq<char>> {
        Names.expression(text)
    }

    open spec fn source(&self, text: Seq<char>) -> Result<ForSourceV, Seq<char>> {
        Names.source(text)
    }

    fn parse_expression(&self, text: &str) -> (r: Result<Reading, String>) {
        Names.parse_expression(text)
    }

    fn for_source_from_text(&self, text: &str) -> (r: Result<ForSource, String>) {
        Names.for_source_from_text(text)
    }
}

impl TileTools for TileKit {
    open spec fn resolved(&self, source: ForSourceV, producers: Seq<ProducerV>) -> Result<
        CompV,
        Seq<char>,
    > {
        source_named(self.sources@, source.text, 0)
    }

    open spec fn reach(&self, c: CompV) -> Reach {
        comp_reach(c)
    }

    open spec fn streamed(&self, text: Seq<char>, c: CompV) -> Seq<char> {
        text
    }

    open spec fn elements(&self, c: CompV, probed: Seq<Result<PortType, Seq<char>>>) -> Result<
        Seq<(Seq<char>, PortType)>,
        Seq<char>,
    > {
        let names = tile_source::element_names(c);
        Ok(Seq::new(names.len(), |i: int| (names[i], PortType::U64)))
    }

    open spec fn probed(&self, text: Seq<char>) -> Result<PortType, Seq<char>> {
        Ok(PortType::U64)
    }

    open spec fn printed(&self, e: ExprV) -> Seq<char> {
        shown(e)
    }

    open spec fn adapter(&self, from: PortType, to: PortType) -> Option<KindV> {
        if from == PortType::U64 && to == PortType::F64 {
            Some(KindV::ToF64)
        } else if to == PortType::Str {
            Some(KindV::Identity(to))
        } else {
            None
        }
    }

    open spec fn encoded(&self, e: EncodingV) -> Seq<char> {
        encoding_shown(e)
    }

    open spec fn written(&self, s: TileSpecV) -> Seq<char> {
        s.name + ":"@ + s.encoding
    }

    open spec fn body_fault(&self, source: Seq<char>) -> Option<Seq<char>> {
        None
    }

    fn resolve_source(&self, source: &ForSource, producers: &Vec<Producer>) -> (r: Result<
        Comprehension,
        String,
    >) {
        let mut i: usize = 0;
        while i < self.sources.len()
            invariant
                i <= self.sources@.len(),
                source_named(self.sources@, source.text@, 0) == source_named(
                    self.sources@,
                    source.text@,
                    i as int,
                ),
            decreases self.sources.len() - i,
        {
            if *self.sources[i].0.as_str() == *source.text.as_str() {
                return Ok(self.sources[i].1.copy());
            }
            i = i + 1;
        }
        Err("unknown source".to_owned())
    }

    fn reach_of(&self, c: &Comprehension) -> (r: Reach) {
        self::reach_of(c)
    }

    fn stream_text(&self, text: &str, c: &Comprehension) -> (r: String) {
        text.to_owned()
    }

    fn element_types(&self, c: &Comprehension, probed: &Vec<Result<PortType, String>>) -> (r:
        Result<Vec<(String, PortType)>, String>) {
        let names: Vec<String> = tile_source::clause_names(c);
        let ghost all = tile_source::element_names(algebra::comp_view(*c));
        let mut out: Vec<(String, PortType)> = Vec::new();
        let mut i: usize = 0;
        while i < names.len()
            invariant
                i <= names@.len(),
                out@.len() == i,
                all == chars::texts(names@),
                forall|k: int|
                    0 <= k < i ==> (#[trigger] out@[k]).0@ == all[k] && out@[k].1 == PortType::U64,
            decreases names.len() - i,
        {
            assert(all[i as int] == names@[i as int]@);
            out.push((names[i].clone(), PortType::U64));
            i = i + 1;
        }
        assert(tile_lower::element_views(out@) =~= Seq::new(
            all.len(),
            |k: int| (all[k], PortType::U64),
        ));
        Ok(out)
    }

    fn probe_element_type(&self, text: &str) -> (r: Result<PortType, String>) {
        Ok(PortType::U64)
    }

    fn pp_expr(&self, e: &Expr) -> (r: String) {
        show(e)
    }

    fn auto_adapter(&self, from: PortType, to: PortType) -> (r: Option<NodeKind>) {
        if from == PortType::U64 && to == PortType::F64 {
            Some(NodeKind::ToF64)
        } else if to == PortType::Str {
            Some(NodeKind::Identity(to))
        } else {
            None
        }
    }

    fn encoding_text(&self, e: &HoleEncoding) -> (r: String) {
        let mut out: String = e.encoding.clone();
        match e.position {
            HolePosition::Value => out.append(":value"),
            HolePosition::InString => out.append(":string"),
            HolePosition::Text => out.append(":text"),
        }
        out
    }

    fn spec_text(&self, s: &TileSpec) -> (r: String) {
        let mut out: String = s.name.clone();
        out.append(":");
        out.append(s.encoding.as_str());
        out
    }

    fn check_body(&self, source: &str) -> (r: Option<String>) {
        None
    }
}

} // verus!
