//! Pragmas and their scopes.
use polydat::dsl::ast::{PolydatFile, Span, Statement};
use polydat::dsl::pragmas::{collect_from_ast, Pragma, PragmaSet};

/// The pragmas of a program that has nothing but pragmas and bindings.
fn pragmas_from(src: &str) -> PragmaSet {
    let mut statements = vec![];
    for (i, line) in src.lines().enumerate() {
        if let Some(name) = line.strip_prefix("pragma ") {
            let span = Span { line: i + 1, col: 1 };
            statements.push(Statement::Pragma { name: name.to_string(), span });
        }
    }
    collect_from_ast(&PolydatFile { statements })
}

#[test]
fn parse_strict_alias() {
    let set = pragmas_from("pragma strict\nid := cycle\n");
    assert!(set.strict_types());
    assert!(set.strict_values());
}

#[test]
fn parse_individual_modes() {
    let set = pragmas_from("pragma strict_types\npragma strict_values\nid := cycle\n");
    assert!(set.strict_types());
    assert!(set.strict_values());
}

#[test]
fn unknown_pragmas_are_collected() {
    let set = pragmas_from("pragma warp_drive\npragma strict\nid := cycle\n");
    assert!(set.strict_types());
    let unknown: Vec<_> = set.unknown();
    assert_eq!(unknown.len(), 1);
    assert_eq!(unknown[0].name, "warp_drive");
}

#[test]
fn attached_inherits_outer_pragmas() {
    let outer = std::sync::Arc::new(PragmaSet {
        entries: vec![Pragma {
            name: "strict_values".into(),
            args: vec![],
            line: 1,
        }],
        parent: None,
    });
    let inner = PragmaSet::empty();
    let (attached, conflicts) = inner.attach_to(outer);
    assert!(attached.strict_values(), "inner should see outer's strict_values via parent walk");
    assert!(conflicts.is_empty());
}

#[test]
fn attached_local_pragma_wins_for_unrelated_names() {
    // Outer says strict_types, inner adds strict_values. No
    // conflict — both apply via the chain walk.
    let outer = std::sync::Arc::new(PragmaSet {
        entries: vec![Pragma {
            name: "strict_types".into(),
            args: vec![],
            line: 1,
        }],
        parent: None,
    });
    let inner = PragmaSet {
        entries: vec![Pragma {
            name: "strict_values".into(),
            args: vec![],
            line: 5,
        }],
        parent: None,
    };
    let (attached, conflicts) = inner.attach_to(outer);
    assert!(attached.strict_types());
    assert!(attached.strict_values());
    assert!(conflicts.is_empty());
}

#[test]
fn attached_records_arg_conflict() {
    // A pragma with a value that disagrees across scopes. Outer wins;
    // the conflict is reported.
    let outer = std::sync::Arc::new(PragmaSet {
        entries: vec![Pragma {
            name: "assert_for".into(),
            args: vec!["alpha".into()],
            line: 1,
        }],
        parent: None,
    });
    let inner = PragmaSet {
        entries: vec![Pragma {
            name: "assert_for".into(),
            args: vec!["beta".into()],
            line: 5,
        }],
        parent: None,
    };
    let (_attached, conflicts) = inner.attach_to(outer);
    assert_eq!(conflicts.len(), 1);
    assert_eq!(conflicts[0].name, "assert_for");
    assert_eq!(conflicts[0].outer_line, 1);
    assert_eq!(conflicts[0].inner_line, 5);
}
