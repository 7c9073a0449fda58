//! Cursors, lowered.
use polydat::dsl::ast::{Arg, CallExpr, CursorDecl, Expr, Span};
use polydat::dsl::catalog::Catalog;
use polydat::dsl::compiler::Compiler;
use polydat::dsl::cursor_sugar::{dispatch, AuxBinding, CursorSugar};
use polydat::dsl::schema::CursorKind;
use polydat::value::PortType;

fn nowhere() -> Span {
    Span { line: 0, col: 0 }
}

fn number(n: u64) -> Expr {
    Expr::IntLit(n, nowhere())
}

fn call(func: &str, args: Vec<Expr>) -> Expr {
    Expr::Call(CallExpr {
        func: func.to_string(),
        args: args.into_iter().map(Arg::Positional).collect(),
        span: nowhere(),
    })
}

fn decl(constructor: Expr) -> CursorDecl {
    CursorDecl { name: "rows".to_string(), constructor, over: None, span: nowhere() }
}

fn none() -> Catalog {
    Catalog { functions: Vec::new(), sugars: Vec::new() }
}

fn lowered(d: &CursorDecl) -> Compiler {
    let mut c = Compiler::new(false);
    c.process_cursor(&none(), d).unwrap();
    c
}

#[test]
fn a_range_of_literals_has_its_extent() {
    let c = lowered(&decl(call("range", vec![number(3), number(10)])));
    let s = &c.cursor_schemas[0];
    assert_eq!(s.name, "rows");
    assert_eq!(s.extent, Some(7));
    assert_eq!(s.cursor_kind, CursorKind::Range);
    assert_eq!(s.projections, vec![("ordinal".to_string(), PortType::U64)]);
    assert!(c.deferred_extents.is_empty());
    let back = lowered(&decl(call("range", vec![number(10), number(3)])));
    assert_eq!(back.cursor_schemas[0].extent, Some(0));
}

#[test]
fn a_range_of_anything_else_waits() {
    let name = Expr::Ident("n".to_string(), nowhere());
    let mut c = lowered(&decl(call("range", vec![number(2), name])));
    assert_eq!(c.cursor_schemas[0].extent, None);
    assert_eq!(c.deferred_extents.len(), 1);
    assert_eq!(c.deferred_extents[0].start_output, "__cursor_extent_rows_start");
    assert_eq!(c.deferred_extents[0].end_output, "__cursor_extent_rows_end");
    c.resolve_extents(&vec![
        ("__cursor_extent_rows_start".to_string(), 2),
        ("__cursor_extent_rows_end".to_string(), 12),
    ]);
    assert_eq!(c.cursor_schemas[0].extent, Some(10));
}

#[test]
fn a_limit_is_put_on_every_cursor() {
    let mut c = Compiler::new(false);
    c.cursor_limit = Some(5);
    c.process_cursor(&none(), &decl(call("range", vec![number(0), number(100)]))).unwrap();
    assert_eq!(c.cursor_schemas[0].extent, Some(5));
    assert_eq!(c.cursor_schemas[0].extent_limit, Some(5));
}

#[test]
fn each_family_has_its_kind() {
    let kind = |func: &str, args: Vec<Expr>| {
        let mut c = lowered(&decl(call(func, args)));
        c.cursor_schemas.remove(0).cursor_kind
    };
    let two = || vec![number(10), number(100)];
    let three = || vec![number(10), number(100), number(4)];
    let min_ms_output = || "__cursor_min_ms_rows".to_string();
    let min_passes_output = || "__cursor_min_passes_rows".to_string();
    let delta = || Some("__cursor_delta_rows".to_string());
    assert_eq!(
        kind("until_elapsed", two()),
        CursorKind::ExtendingTimed { min_ms_output: min_ms_output(), delta_output: None }
    );
    assert_eq!(
        kind("until_elapsed", three()),
        CursorKind::ExtendingTimed { min_ms_output: min_ms_output(), delta_output: delta() }
    );
    assert_eq!(
        kind("until_passes", two()),
        CursorKind::ExtendingPasses {
            min_passes_output: min_passes_output(),
            delta_output: None
        }
    );
    assert_eq!(
        kind("until_count", two()),
        CursorKind::ExtendingCount {
            min_count_output: "__cursor_min_count_rows".to_string(),
            delta_output: None
        }
    );
    assert_eq!(
        kind("until_elapsed_and_passes", three()),
        CursorKind::ExtendingElapsedAndPasses {
            min_ms_output: min_ms_output(),
            min_passes_output: min_passes_output(),
            delta_output: None
        }
    );
    assert_eq!(
        kind("until_elapsed_or_passes", three()),
        CursorKind::ExtendingElapsedOrPasses {
            min_ms_output: min_ms_output(),
            min_passes_output: min_passes_output(),
            delta_output: None
        }
    );
}

#[test]
fn a_family_counts_its_arguments() {
    let mut c = Compiler::new(false);
    assert_eq!(
        c.process_cursor(&none(), &decl(call("until_passes", vec![number(1)]))),
        Err("cursor 'rows': `until_passes` takes 2-3 args, got 1".to_string())
    );
    assert!(c.cursor_schemas.is_empty());
}

#[test]
fn a_part_of_a_cursor_has_its_own_inputs() {
    let mut d = decl(call("range", vec![number(0), number(8)]));
    d.over = Some(number(1));
    let c = lowered(&d);
    assert_eq!(
        c.cursor_schemas[0].partition_output.as_deref(),
        Some("__cursor_rows_over_raw")
    );
    assert_eq!(c.graph.input_type("rows__ordinal"), Some(PortType::U64));
    assert_eq!(c.graph.input_type("rows__cursor"), Some(PortType::Ext));
    assert_eq!(c.graph.input_type("rows__cursor__end_pct"), Some(PortType::F64));
}

#[test]
fn the_first_rule_that_applies_decides() {
    let sugar = |n: u64| CursorSugar {
        effective_constructor: number(n),
        aux_bindings: Vec::new(),
    };
    assert_eq!(
        dispatch(vec![Ok(None), Ok(Some(sugar(1))), Ok(Some(sugar(2)))]),
        Ok(Some(sugar(1)))
    );
    assert_eq!(dispatch(vec![Ok(None)]), Ok(None));
    assert_eq!(
        dispatch(vec![Err("no".to_string()), Ok(Some(sugar(2)))]),
        Err("no".to_string())
    );
}

#[test]
fn a_rewritten_constructor_brings_its_bindings() {
    let rewritten = CursorSugar {
        effective_constructor: call("range", vec![number(0), number(6)]),
        aux_bindings: vec![AuxBinding {
            name: "rows__size".to_string(),
            value: number(4),
            projection: Some(("size".to_string(), PortType::U64)),
        }],
    };
    let tools = Catalog {
        functions: Vec::new(),
        sugars: vec![
            ("rows".to_string(), Ok(rewritten)),
            ("bad".to_string(), Err("no data".to_string())),
        ],
    };
    let mut c = Compiler::new(false);
    c.process_cursor(&tools, &decl(call("dataset", vec![]))).unwrap();
    assert_eq!(c.cursor_schemas[0].extent, Some(6));
    assert_eq!(
        c.cursor_schemas[0].projections,
        vec![("ordinal".to_string(), PortType::U64), ("size".to_string(), PortType::U64)]
    );
    let mut d = decl(call("dataset", vec![]));
    d.name = "bad".to_string();
    assert_eq!(c.process_cursor(&tools, &d), Err("no data".to_string()));
}
