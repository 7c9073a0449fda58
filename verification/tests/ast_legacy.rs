//! Comprehensions as they are written.
use polydat::comprehension::ast_legacy::{Clause, Comprehension, TraversalOrder, ZipMode};

#[test]
fn cartesian_coordinate_names_in_declaration_order() {
    let c = Comprehension::cartesian(vec![
        Clause::new("k", "{k_values}"),
        Clause::new("limit", "{k_{k}_limits}"),
    ]);
    assert_eq!(c.coordinate_names(), vec!["k", "limit"]);
    assert!(c.is_cartesian());
    assert_eq!(c.clause_count(), 2);
}

#[test]
fn union_dedupes_repeated_names_first_occurrence_wins() {
    // Sub-space 1 binds k, limit. Sub-space 2 also binds
    // k, limit. The dedup'd coordinate names are still
    // `[k, limit]` in their first-occurrence order — not
    // doubled.
    let c = Comprehension::union(vec![
        vec![Clause::new("k", "10"), Clause::new("limit", "10,20,30")],
        vec![Clause::new("k", "100"), Clause::new("limit", "100,200,300")],
    ]);
    assert_eq!(c.coordinate_names(), vec!["k", "limit"]);
    assert!(c.is_union());
    // Flat clauses preserve repetition (4 entries — two
    // per sub-space).
    assert_eq!(c.flat_clauses().len(), 4);
    assert_eq!(c.clause_count(), 4);
}

#[test]
fn single_clause_cartesian_is_the_simple_form() {
    let c = Comprehension::cartesian(vec![
        Clause::new("profile", "matching_profiles('{dataset}', '{prefix}')"),
    ]);
    assert_eq!(c.coordinate_names(), vec!["profile"]);
    assert_eq!(c.clause_count(), 1);
}

#[test]
fn union_with_distinct_names_per_subspace_keeps_all_in_order() {
    // Pathological case (probably not real-world): two
    // sub-spaces each with their own distinct vars.
    // First-occurrence ordering preserves authoring intent.
    let c = Comprehension::union(vec![
        vec![Clause::new("a", "1")],
        vec![Clause::new("b", "2")],
    ]);
    assert_eq!(c.coordinate_names(), vec!["a", "b"]);
}

// ---- Display contract ------------------------------------

#[test]
fn display_single_var_clause() {
    let c = Clause::new("k", "1..10");
    assert_eq!(c.to_string(), "k in 1..10");
}

#[test]
fn display_parallel_clause_strict() {
    let c = Clause::parallel(&["x", "y"], &["fib(8)", "pow2(8)"]);
    assert_eq!(c.to_string(), "(x, y) in (fib(8), pow2(8))");
}

#[test]
fn display_parallel_clause_truncate() {
    let c = Clause::parallel_with_mode(
        ZipMode::Truncate, &["x", "y"], &["fib(8)", "pow2(4)"]
    );
    assert_eq!(c.to_string(), "(x, y) in zip_truncate(fib(8), pow2(4))");
}

#[test]
fn display_parallel_clause_cycle() {
    let c = Clause::parallel_with_mode(
        ZipMode::Cycle, &["x", "y"], &["1..4", "10..20..10"]
    );
    assert_eq!(c.to_string(), "(x, y) in zip_cycle(1..4, 10..20..10)");
}

#[test]
fn display_cartesian_comprehension() {
    let c = Comprehension::cartesian(vec![
        Clause::new("k", "1..10"),
        Clause::new("limit", "10,20,30"),
    ]);
    assert_eq!(c.to_string(), "k in 1..10, limit in 10,20,30");
}

#[test]
fn display_comprehension_with_filter_and_order() {
    let c = Comprehension::cartesian(vec![Clause::new("k", "1..10")])
        .with_filter("{k} > 3")
        .with_order(TraversalOrder::Extrema { strata: Some(2) });
    assert_eq!(c.to_string(), "k in 1..10 where {k} > 3 order extrema/2");
}

// ---- Validate contract -----------------------------------

#[test]
fn validate_accepts_valid_cartesian() {
    let c = Comprehension::cartesian(vec![
        Clause::new("k", "1..10"),
        Clause::new("limit", "10,20,30"),
    ]);
    assert!(c.validate().is_ok());
}

#[test]
fn validate_accepts_valid_union() {
    let c = Comprehension::union(vec![
        vec![Clause::new("k", "10"), Clause::new("limit", "10,20")],
        vec![Clause::new("k", "100"), Clause::new("limit", "100,200")],
    ]);
    assert!(c.validate().is_ok());
}

#[test]
fn validate_rejects_empty_cartesian() {
    let c = Comprehension::cartesian(vec![]);
    let errs = c.validate().unwrap_err();
    assert!(errs.iter().any(|e| e.contains("no clauses")), "got: {errs:?}");
}

#[test]
fn validate_rejects_empty_union() {
    let c = Comprehension::union(vec![]);
    let errs = c.validate().unwrap_err();
    assert!(errs.iter().any(|e| e.contains("no sub-spaces")), "got: {errs:?}");
}

#[test]
fn validate_rejects_empty_subspace_inside_union() {
    let c = Comprehension::union(vec![
        vec![Clause::new("k", "10")],
        vec![],  // empty sub-space
    ]);
    let errs = c.validate().unwrap_err();
    assert!(errs.iter().any(|e| e.contains("Union sub-space #1 has no clauses")),
        "got: {errs:?}");
}

#[test]
fn validate_rejects_cartesian_name_collision() {
    let c = Comprehension::cartesian(vec![
        Clause::new("k", "10"),
        Clause::new("k", "20"),  // same name in Cartesian
    ]);
    let errs = c.validate().unwrap_err();
    assert!(errs.iter().any(|e| e.contains("repeats variable name 'k'")),
        "got: {errs:?}");
}

#[test]
fn validate_rejects_cartesian_collision_with_parallel_clause() {
    let c = Comprehension::cartesian(vec![
        Clause::parallel(&["x", "y"], &["1..10", "10..100..10"]),
        Clause::new("y", "100"),  // conflicts with parallel-group y
    ]);
    let errs = c.validate().unwrap_err();
    assert!(errs.iter().any(|e| e.contains("repeats variable name 'y'")),
        "got: {errs:?}");
}

#[test]
fn validate_permits_repeated_names_across_union_subspaces() {
    // Repeated `k` across sub-spaces is the structural Union
    // signal — must NOT be rejected.
    let c = Comprehension::union(vec![
        vec![Clause::new("k", "10")],
        vec![Clause::new("k", "100")],
    ]);
    assert!(c.validate().is_ok());
}

#[test]
fn display_union_uses_pipe_separator_per_subspace() {
    let c = Comprehension::union(vec![
        vec![Clause::new("k", "10"), Clause::new("limit", "10,20")],
        vec![Clause::new("k", "100"), Clause::new("limit", "100,200")],
    ]);
    assert_eq!(c.to_string(),
        "k in 10, limit in 10,20 | k in 100, limit in 100,200");
}
