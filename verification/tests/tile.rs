//! Templates: read, written, spliced and lowered.
use polydat::comprehension::ast::Comprehension;
use polydat::comprehension::cardinality::{Interval, ProductMeasure};
use polydat::comprehension::source::Source;
use polydat::dsl::assembly::{InputKind, NodeKind};
use polydat::dsl::ast::{Expr, Span};
use polydat::dsl::catalog::{Catalog, Function};
use polydat::dsl::compiler::Compiler;
use polydat::dsl::events::CompileEvent;
use polydat::dsl::registry::{Arity, FuncCategory, FuncSig, OutputType, ParamSpec, SlotType};
use polydat::dsl::template::{TileBodyKind, TileDef, TileOptions, TilePiece};
use polydat::dsl::tile::{parse_template, render_template, Names};
use polydat::dsl::tile_kit::TileKit;
use polydat::dsl::tile_lower::{collect_piece_refs, splice_tiles, TileBook};
use polydat::dsl::tile_ops::{HoleSource, SkeletonShape, TileOp};
use polydat::dsl::tile_source::{
    clause_names, escape_polydat_string, filter_predicates, generator_clauses,
    has_unhinted_source, placeholder_names,
};
use polydat::float::Float64;
use polydat::value::{Datum, PortType};

fn at() -> Span {
    Span { line: 7, col: 2 }
}

fn read(text: &str) -> Result<Vec<TilePiece>, String> {
    parse_template(&Names, text, &TileOptions::default(), at())
}

fn pieces(text: &str) -> Vec<TilePiece> {
    read(text).unwrap()
}

fn written(text: &str) -> String {
    render_template(&pieces(text), &TileOptions::default())
}

fn fault(text: &str) -> String {
    read(text).unwrap_err()
}

fn name(e: &Expr) -> &str {
    match e {
        Expr::Ident(n, _) => n.as_str(),
        other => panic!("not a name: {other:?}"),
    }
}

// --- Reading ---

#[test]
fn a_hole_has_a_type_a_format_and_a_raw_mark() {
    let p = pieces("a ${x: str | 05d} ${y!}");
    assert_eq!(p.len(), 4);
    assert_eq!(p[0], TilePiece::Static("a ".to_string()));
    match &p[1] {
        TilePiece::Hole(h) => {
            assert_eq!(h.text, "x: str | 05d");
            assert_eq!(name(&h.expr), "x");
            assert_eq!(h.decl_type.as_deref(), Some("str"));
            assert_eq!(h.format.as_deref(), Some("05d"));
            assert!(!h.raw);
            assert_eq!(h.span, at());
        }
        other => panic!("{other:?}"),
    }
    match &p[3] {
        TilePiece::Hole(h) => {
            assert!(h.raw);
            assert_eq!(name(&h.expr), "y");
        }
        other => panic!("{other:?}"),
    }
}

#[test]
fn a_doubled_opener_stands_for_itself() {
    assert_eq!(pieces("cost ${${5}"), vec![TilePiece::Static("cost ${5}".to_string())]);
    assert_eq!(written("cost ${${5}"), "cost ${${5}");
}

#[test]
fn a_projection_has_a_source_a_separator_and_a_body() {
    let p = pieces("[@for x in 0..3 sep \", \" { <${x}> }]");
    assert_eq!(p.len(), 3);
    match &p[1] {
        TilePiece::Projection { source, sep, body, .. } => {
            assert_eq!(source.text, "x in 0..3");
            assert_eq!(sep.as_deref(), Some(", "));
            assert_eq!(body.len(), 3);
            assert_eq!(body[0], TilePiece::Static("<".to_string()));
            assert_eq!(body[2], TilePiece::Static(">".to_string()));
        }
        other => panic!("{other:?}"),
    }
}

#[test]
fn a_branch_has_one_body_or_two() {
    match &pieces("@if on { yes } @else { no }")[0] {
        TilePiece::Branch { cond, then, otherwise, .. } => {
            assert_eq!(cond.shown, "on");
            assert_eq!(then, &vec![TilePiece::Static("yes".to_string())]);
            assert_eq!(otherwise, &Some(vec![TilePiece::Static("no".to_string())]));
        }
        other => panic!("{other:?}"),
    }
    match &pieces("@if on { yes } else")[..] {
        [TilePiece::Branch { otherwise, .. }, TilePiece::Static(rest)] => {
            assert_eq!(otherwise, &None);
            assert_eq!(rest, " else");
        }
        other => panic!("{other:?}"),
    }
}

#[test]
fn braces_in_a_body_are_balanced() {
    match &pieces("@if on { {\"a\": {}} }")[0] {
        TilePiece::Branch { then, .. } => {
            assert_eq!(then, &vec![TilePiece::Static("{\"a\": {}}".to_string())]);
        }
        other => panic!("{other:?}"),
    }
    assert_eq!(pieces("} {"), vec![TilePiece::Static("} {".to_string())]);
}

#[test]
fn a_name_in_braces_belongs_to_the_header_it_joins() {
    match &pieces("@for x in {n}..{m} { a }")[0] {
        TilePiece::Projection { source, .. } => assert_eq!(source.text, "x in {n}..{m}"),
        other => panic!("{other:?}"),
    }
}

#[test]
fn delimiters_can_be_chosen() {
    let opts = TileOptions {
        open: "<<".to_string(),
        close: ">>".to_string(),
        sigil: "#".to_string(),
        strict: false,
    };
    let p = parse_template(&Names, "a <<x>> #if on { ${y} }", &opts, at()).unwrap();
    assert_eq!(p.len(), 4);
    assert_eq!(render_template(&p, &opts), "a <<x>> #if on { ${y} }");
}

#[test]
fn each_fault_of_a_template_has_its_message() {
    let place = |msg: &str, offset: usize| {
        format!("tile at line 7, col 2: {msg} (template offset {offset})")
    };
    assert_eq!(fault("@for x in xs"), place("directive has no `{` block", 12));
    assert_eq!(
        fault("@for x ${y} { a }"),
        place("directive has no `{` block; a hole cannot appear in a directive header", 7)
    );
    assert_eq!(fault("@if on { a"), place("unterminated block; expected `}`", 10));
    assert_eq!(fault("@if 1 + 2 { a }"), place("branch condition `1 + 2`: not a name", 10));
    assert_eq!(fault("${x"), place("unterminated hole; expected `}`", 3));
    assert_eq!(fault("${ }"), place("empty hole", 4));
    assert_eq!(fault("${!}"), place("hole `!` has no expression", 4));
    assert_eq!(fault("${1 + 2}"), place("hole `1 + 2`: not a name", 8));
    assert_eq!(
        fault("${x: text}"),
        place(
            "hole `x: text`: unknown type 'text'; types are the port-type keywords \
             (u64, i64, f64, str, bool, json, bytes, ...)",
            10
        )
    );
}

// --- Writing ---

#[test]
fn what_is_written_is_read_back() {
    for text in [
        "plain",
        "",
        "a ${x} b ${y: str!}",
        "cost ${${5} and ${z}",
        "@for x in 0..3 sep \", \" { <${x}> }",
        "@if on { a } @else { b ${c} }",
        "[@for x in xs { @if x { ${x} } }]",
    ] {
        let p = pieces(text);
        let out = render_template(&p, &TileOptions::default());
        assert_eq!(pieces(&out), p, "{text} was written as {out}");
    }
}

#[test]
fn white_space_inside_directives_is_put_in_order() {
    assert_eq!(written("@for   x in xs{a}"), "@for x in xs { a }");
    assert_eq!(written("@if on{a}@else{b}"), "@if on { a } @else { b }");
}

// --- Names, sources and shapes ---

fn int_clause(name: &str) -> Comprehension {
    Comprehension::Clause {
        name: name.to_string(),
        source: Source::IntRange { lo: 0, hi: 3, step: 1 },
    }
}

fn generator(name: &str, expr: &str, hint: Option<u64>) -> Comprehension {
    Comprehension::Clause {
        name: name.to_string(),
        source: Source::Generator { expr: expr.to_string(), cardinality_hint: hint },
    }
}

#[test]
fn generators_and_predicates_are_found_anywhere() {
    let c = Comprehension::Filter {
        child: Box::new(Comprehension::Cartesian {
            children: vec![int_clause("i"), generator("g", "values({n})", None)],
        }),
        predicate: "{i} < {g}".to_string(),
    };
    assert_eq!(generator_clauses(&c), vec![("g".to_string(), "values({n})".to_string())]);
    assert_eq!(filter_predicates(&c), vec!["{i} < {g}".to_string()]);
    assert_eq!(clause_names(&c), vec!["i".to_string(), "g".to_string()]);
    assert!(has_unhinted_source(&c));
    assert!(!has_unhinted_source(&generator("g", "values()", Some(4))));
}

#[test]
fn placeholders_and_escapes() {
    assert_eq!(placeholder_names("{a} + {b_1} {2} {} {c d}"), vec!["a", "b_1", "2"]);
    assert_eq!(escape_polydat_string("a\"b\\c"), "a\\\"b\\\\c");
}

#[test]
fn references_of_pieces_are_gathered_in_order() {
    let mut out = Vec::new();
    let text = "${a} @for x in {n}..9 { ${x} } @if on { ${b} } @else { ${c} }";
    collect_piece_refs(&kit(), &Vec::new(), &pieces(text), &mut out);
    assert_eq!(out, vec!["a", "n", "x", "on", "b", "c"]);
}

#[test]
fn a_shape_counts_all_the_way_down() {
    let mut shape = SkeletonShape {
        statics: 0,
        static_bytes: 0,
        holes: 0,
        branches: 0,
        projections: 0,
    };
    shape.count(&vec![
        TileOp::Static("ab".to_string()),
        TileOp::Branch {
            cond: HoleSource::Wire(0),
            then: vec![TileOp::Hole(HoleSource::Wire(1))],
            otherwise: vec![TileOp::Static("c".to_string())],
        },
    ]);
    assert_eq!(
        (shape.statics, shape.static_bytes, shape.branches, shape.projections),
        (2, 3, 1, 0)
    );
}

// --- Splicing ---

fn tile(name: &str, encoding: Option<&str>, text: &str) -> TileDef {
    TileDef {
        name: name.to_string(),
        encoding: encoding.map(str::to_string),
        options: TileOptions::default(),
        body_kind: TileBodyKind::Heredoc,
        body: text.to_string(),
        pieces: pieces(text),
        span: at(),
    }
}

#[test]
fn a_tile_is_spliced_where_it_is_named() {
    let known = vec![tile("inner", None, "<${x}>")];
    let got = splice_tiles(&known, &pieces("a ${inner} b"), "outer", "text", 0).unwrap();
    assert_eq!(render_template(&got, &TileOptions::default()), "a <${x}> b");
}

#[test]
fn a_tile_of_another_encoding_stays_a_hole() {
    let known = vec![tile("inner", Some("json"), "1")];
    let got = splice_tiles(&known, &pieces("${inner}"), "outer", "text", 0).unwrap();
    assert_eq!(got, pieces("${inner}"));
    let known = vec![tile("inner", None, "1")];
    let got = splice_tiles(&known, &pieces("${inner: str}"), "outer", "text", 0).unwrap();
    assert_eq!(got, pieces("${inner: str}"));
}

#[test]
fn a_tile_that_names_itself_is_an_error() {
    let known = vec![tile("a", None, "${a}")];
    assert_eq!(
        splice_tiles(&known, &pieces("${a}"), "a", "text", 0),
        Err("tile 'a' splices itself".to_string())
    );
    let known = vec![tile("a", None, "${b}"), tile("b", None, "${a}")];
    let e = splice_tiles(&known, &pieces("${a}"), "c", "text", 0).unwrap_err();
    assert!(e.ends_with("': splice nesting too deep; is there a cycle?"), "{e}");
}

// --- Lowering ---

const WIRE: ParamSpec = ParamSpec {
    name: "input",
    slot_type: SlotType::Wire,
    required: true,
    example: "cycle",
    constraint: None,
};

const TEXT: ParamSpec = ParamSpec {
    name: "text",
    slot_type: SlotType::ConstStr,
    required: true,
    example: "",
    constraint: None,
};

fn function(name: &'static str, params: &'static [ParamSpec], arity: Arity) -> Function {
    Function {
        sig: FuncSig {
            name,
            category: FuncCategory::Arithmetic,
            outputs: 1,
            description: "",
            help: "",
            identity: None,
            params,
            arity,
            default_resolver: None,
            output_type: OutputType::Fixed,
            output_port: Some(PortType::Str),
        },
        ins: vec![PortType::Str],
        outs: vec![PortType::Str],
    }
}

fn source(text: &str, c: Comprehension) -> (String, Comprehension) {
    (text.to_string(), c)
}

fn unit() -> Interval {
    Interval {
        lo: Float64 { bits: 0 },
        hi: Float64 { bits: 0x3ff0000000000000 },
        lo_open: false,
        hi_open: false,
    }
}

fn kit() -> TileKit {
    TileKit {
        catalog: Catalog {
            functions: vec![
                function("tile_encode", &[WIRE, TEXT], Arity::Fixed),
                function("tile_render", &[TEXT, WIRE], Arity::VariadicWires { min_wires: 0 }),
            ],
            sugars: Vec::new(),
        },
        sources: vec![
            source("x in 0..3", int_clause("x")),
            source("y in 0..3", int_clause("y")),
            source("g in gens", generator("g", "n", None)),
            source("h in held", generator("h", "{n}", None)),
            source(
                "p in plenty",
                Comprehension::Clause {
                    name: "p".to_string(),
                    source: Source::WorkloadParamList { name: "p".to_string(), len_hint: None },
                },
            ),
            source(
                "c in unit",
                Comprehension::Clause {
                    name: "c".to_string(),
                    source: Source::ContinuousInterval {
                        interval: unit(),
                        measure: ProductMeasure::Uniform,
                    },
                },
            ),
            source(
                "x in 0..3 where {n} > x",
                Comprehension::Filter {
                    child: Box::new(int_clause("x")),
                    predicate: "{x} < {n}".to_string(),
                },
            ),
        ],
    }
}

fn compiler() -> Compiler {
    let mut c = Compiler::new(false);
    c.graph.add_input("n", Datum::U64(0), PortType::U64, InputKind::Coordinate);
    c.graph.add_input("w", Datum::Nothing, PortType::Handle, InputKind::Coordinate);
    c.input_names = vec!["n".to_string(), "w".to_string()];
    c
}

fn book() -> TileBook {
    TileBook { tiles: Vec::new(), producers: Vec::new(), events: Vec::new() }
}

fn lower(t: &TileDef) -> (Compiler, TileBook, Result<(), String>) {
    let mut c = compiler();
    let mut b = book();
    let r = c.compile_tile(&kit(), &mut b, t);
    (c, b, r)
}

fn refused(text: &str) -> String {
    lower(&tile("t", None, text)).2.unwrap_err()
}

fn shape(b: &TileBook) -> (usize, usize, usize, usize, usize, Vec<String>) {
    match b.events.last() {
        Some(CompileEvent::TileCompiled {
            statics,
            static_bytes,
            holes,
            branches,
            projections,
            bodies,
            ..
        }) => (*statics, *static_bytes, *holes, *branches, *projections, bodies.clone()),
        other => panic!("{other:?}"),
    }
}

#[test]
fn a_tile_without_holes_is_a_constant() {
    let (c, b, r) = lower(&tile("t", None, "plain"));
    assert_eq!(r, Ok(()));
    assert_eq!(c.graph.const_outputs, vec!["t"]);
    assert!(c.graph.output_modifier("t").is_const());
    assert_eq!(shape(&b), (1, 5, 0, 0, 0, vec![]));
    assert_eq!(b.tiles.len(), 1);
}

#[test]
fn a_hole_becomes_an_encoded_wire() {
    let (c, b, r) = lower(&tile("t", Some("json"), "{\"a\": ${n}, \"b\": \"${n}\"}"));
    assert_eq!(r, Ok(()));
    assert!(c.graph.const_outputs.is_empty());
    let made: Vec<&str> = c.graph.nodes.iter().map(|n| n.name.as_str()).collect();
    assert!(made.contains(&"__tile_t_h0") && made.contains(&"__tile_t_h1"), "{made:?}");
    assert_eq!(shape(&b), (3, 16, 2, 0, 0, vec![]));
    match &b.events[0] {
        CompileEvent::TileHoleTyped { tile, hole, wire_type, expectation, encoder, .. } => {
            assert_eq!((tile.as_str(), hole.as_str(), wire_type.as_str()), ("t", "n", "u64"));
            assert_eq!(expectation, "any JSON value (u64)");
            assert_eq!(encoder, "json number");
        }
        other => panic!("{other:?}"),
    }
    match &b.events[1] {
        CompileEvent::TileHoleTyped { expectation, encoder, .. } => {
            assert_eq!(expectation, "text inside a JSON string (u64)");
            assert_eq!(encoder, "json escaped text");
        }
        other => panic!("{other:?}"),
    }
}

#[test]
fn a_declared_type_takes_an_adapter() {
    let (c, b, r) = lower(&tile("t", None, "${n: f64}"));
    assert_eq!(r, Ok(()));
    let a = c.graph.nodes.iter().find(|n| n.name == "__tile_t_h0_a").unwrap();
    assert_eq!(a.kind, NodeKind::ToF64);
    match &b.events[0] {
        CompileEvent::TileHoleTyped { declared, adapter, .. } => {
            assert_eq!(declared.as_deref(), Some("f64"));
            assert_eq!(adapter.as_deref(), Some("u64 -> f64"));
        }
        other => panic!("{other:?}"),
    }
    assert_eq!(
        refused("${n: bytes}"),
        "tile 't': hole `n: bytes`: no conversion from the wire type u64 to the declared type \
         bytes; write the conversion explicitly in the expression"
    );
    let mut strict = tile("t", None, "${n: f64}");
    strict.options.strict = true;
    assert_eq!(
        lower(&strict).2.unwrap_err(),
        "tile 't': hole `n: f64`: strict mode rejects the implicit u64 -> f64 adapter the \
         declaration needs; write the conversion explicitly in the expression"
    );
    assert_eq!(
        refused("${w}"),
        "tile 't': hole `w`: a handle wire has no text form and cannot fill a hole"
    );
}

#[test]
fn a_projection_becomes_a_body_of_its_own() {
    let (c, b, r) = lower(&tile("t", None, "@for x in 0..3 { ${x}-${n} }"));
    assert_eq!(r, Ok(()));
    assert!(c.graph.const_outputs.is_empty());
    let (statics, _, holes, _, projections, bodies) = shape(&b);
    assert_eq!((statics, holes, projections), (1, 2, 1));
    assert_eq!(
        bodies,
        vec![
            "input __tuple: u64\nextern x: u64\nextern n: u64\n\
             __b0 := tile_encode(x, \"text:text\")\n\
             __b1 := tile_encode(n, \"text:text\")\n"
        ]
    );
}

#[test]
fn a_projection_in_a_projection_is_a_tile_of_the_body() {
    let (_, b, r) = lower(&tile("t", None, "@for x in 0..3 { @for y in 0..3 { ${x}${y} } }"));
    assert_eq!(r, Ok(()));
    assert_eq!(
        shape(&b).5,
        vec![
            "input __tuple: u64\nextern x: u64\n\
             tile __b0 : text := \"@for y in 0..3 { ${x}${y} }\"\n"
        ]
    );
}

#[test]
fn a_generator_becomes_a_wire() {
    let (c, _, r) = lower(&tile("t", None, "@for g in gens { ${g} }"));
    assert_eq!(r, Ok(()));
    assert!(c.graph.nodes.iter().any(|n| n.name == "__tile_t_g0"));
}

#[test]
fn each_fault_of_a_projection_has_its_message() {
    assert_eq!(refused("@for z in zs { a }"), "tile 't': projection: unknown source");
    assert!(refused("@for c in unit { a }").contains("ranges over a continuous source"));
    assert!(refused("@for h in held { a }").contains("uses a `{name}` placeholder"));
    assert_eq!(
        refused("@for x in 0..3 where {n} > x { a }"),
        "tile 't': projection `for x in 0..3 where {n} > x`: predicate placeholder `{n}` names \
         a wire outside the comprehension; a projection's predicate sees only its elements"
    );
}

#[test]
fn a_branch_has_a_condition_and_two_runs() {
    let (_, b, r) = lower(&tile("t", None, "@if n { yes } @else { no }"));
    assert_eq!(r, Ok(()));
    assert_eq!(shape(&b).3, 1);
    match &b.events[0] {
        CompileEvent::TileHoleTyped { encoder, expectation, .. } => {
            assert_eq!(encoder, "truth value as 1 or 0");
            assert_eq!(expectation, "a truth value (u64)");
        }
        other => panic!("{other:?}"),
    }
}

#[test]
fn a_lowered_tile_can_be_spliced_later() {
    let mut c = compiler();
    let mut b = book();
    c.compile_tile(&kit(), &mut b, &tile("one", None, "<${n}>")).unwrap();
    c.compile_tile(&kit(), &mut b, &tile("two", None, "[${one}]")).unwrap();
    assert_eq!(shape(&b).0, 2);
    assert_eq!(shape(&b).2, 1);
    assert_eq!(b.tiles.len(), 2);
}

#[test]
fn what_is_read_and_written_is_read_as_the_same() {
    for text in [
        "",
        "plain { text } with ${${ doubled ${${",
        "a ${ x } b ${y: str | 05d}${z!}",
        "@for   x in xs{a ${x} }",
        "@for x in {xs} sep \", \" {\n  ${x}: { y }\n}",
        "@if on{a}@else{b}",
        "@if on {  a } tail @elsewhere",
        "x @if a { @for y in ys { ${y} } @if b { c } } z",
        "mail@for.example @iffy",
    ] {
        let first = pieces(text);
        let again = read(&render_template(&first, &TileOptions::default())).unwrap();
        assert_eq!(again, first, "{text}");
    }
}

#[test]
fn a_body_that_ends_with_half_a_directive_is_written_as_a_whole_one() {
    let text = "@if on {a @for}";
    assert_eq!(written(text), "@if on { a @for }");
    assert!(read(&written(text)).is_err());
}

#[test]
fn a_source_that_looks_like_a_separator_is_not_told_apart() {
    for text in ["@for\tsep \"x\" {y}", "@for x in xs sep \"a\\\\\" {y}"] {
        assert_ne!(read(&written(text)).unwrap(), pieces(text), "{text}");
    }
}

#[test]
fn templates_with_other_marks_are_read_as_the_same_too() {
    let marks = |open: &str, close: &str, sigil: &str| TileOptions {
        open: open.to_string(),
        close: close.to_string(),
        sigil: sigil.to_string(),
        strict: false,
    };
    for (opts, text) in [
        (marks("{{", "}}", "@@"), "{ {{ x }} {{{{{ } @@for y in ys {a {{y}} {{{{ b}@@@for"),
        (marks("<%", "%>", "%%"), "a< <% x %><%<%%%if on {  %% <%y%> }%%else{z}"),
        (marks("$$", "]]", "$"), "a$ $$x ]]$$$$for $for y in ys { $$y]], }$iffy"),
        (marks("%$%", ")", "##"), "%$ %$%%$%%$%x )##if on {##}"),
    ] {
        let first = parse_template(&Names, text, &opts, at()).unwrap();
        let again = parse_template(&Names, &render_template(&first, &opts), &opts, at()).unwrap();
        assert_eq!(again, first, "{text}");
    }
}

#[test]
fn a_closing_mark_that_overlaps_itself_can_close_early() {
    let opts = TileOptions {
        open: "<<".to_string(),
        close: ">>".to_string(),
        sigil: "@".to_string(),
        strict: false,
    };
    let fault = parse_template(&Names, "<<x> >>", &opts, at()).unwrap_err();
    assert!(fault.contains("hole `x>`"), "{fault}");
    assert_eq!(parse_template(&Names, "<<x>>>", &opts, at()).unwrap().len(), 2);
}
