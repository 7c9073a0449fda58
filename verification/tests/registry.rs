//! The registry of functions.
use polydat::dsl::registry::{
    by_category, lookup, registry, suggest_function, Arity, FuncCategory, FuncSig, OutputType,
    ParamSpec, SlotType,
};

const WIRE: ParamSpec = ParamSpec {
    name: "input",
    slot_type: SlotType::Wire,
    required: true,
    example: "cycle",
    constraint: None,
};

const NUMBER: ParamSpec = ParamSpec { slot_type: SlotType::ConstU64, ..WIRE };

const FORMAT: ParamSpec = ParamSpec { slot_type: SlotType::ConstStr, ..WIRE };

const HASH: FuncSig = FuncSig {
    name: "hash",
    category: FuncCategory::Hashing,
    outputs: 1,
    description: "",
    help: "",
    identity: None,
    params: &[WIRE],
    arity: Arity::Fixed,
    default_resolver: None,
    output_type: OutputType::Fixed,
    output_port: None,
};

const SUM: FuncSig = FuncSig {
    name: "sum",
    category: FuncCategory::Variadic,
    identity: Some(0),
    arity: Arity::VariadicWires { min_wires: 0 },
    ..HASH
};

const ADD: FuncSig = FuncSig {
    name: "add",
    category: FuncCategory::Arithmetic,
    params: &[WIRE, NUMBER],
    ..HASH
};

const FIRST: &[FuncSig] = &[HASH, ADD, SUM];

const SECOND: &[FuncSig] = &[
    FuncSig { name: "mul", ..ADD },
    FuncSig { name: "div", ..ADD },
    FuncSig { name: "mod", ..ADD },
    FuncSig { name: "clamp", ..ADD },
    FuncSig { name: "interleave", params: &[WIRE, WIRE], ..ADD },
    FuncSig {
        name: "mixed_radix",
        arity: Arity::VariadicConsts { min_consts: 0 },
        outputs: 0,
        ..ADD
    },
    FuncSig { name: "product", identity: Some(1), ..SUM },
    FuncSig { name: "min", identity: None, ..SUM },
    FuncSig { name: "max", identity: None, ..SUM },
    FuncSig {
        name: "printf",
        category: FuncCategory::Formatting,
        params: &[FORMAT, WIRE],
        ..SUM
    },
];

/// A registry of two modules.
fn sample() -> Vec<FuncSig> {
    registry(&vec![FIRST, SECOND])
}

#[test]
fn suggest_close_match() {
    assert_eq!(suggest_function(&sample(), "hsh"), Some("hash"));
    assert_eq!(suggest_function(&sample(), "hahs"), Some("hash"));
    assert_eq!(suggest_function(&sample(), "interleav"), Some("interleave"));
}

#[test]
fn suggest_no_match() {
    assert_eq!(suggest_function(&sample(), "zzzzzzzzz"), None);
}

#[test]
fn lookup_exists() {
    let sig = *lookup(&sample(), "hash").unwrap();
    assert_eq!(sig.wire_input_count(), 1);
    assert_eq!(sig.outputs, 1);
    assert!(!sig.is_variadic());
    assert_eq!(sig.category, FuncCategory::Hashing);
}

#[test]
fn lookup_missing() {
    assert!(lookup(&sample(), "nonexistent").is_none());
}

#[test]
fn lookup_variadic() {
    let sig = *lookup(&sample(), "sum").unwrap();
    assert!(sig.is_variadic());
    assert_eq!(sig.identity, Some(0));
    assert_eq!(sig.category, FuncCategory::Variadic);
}

#[test]
fn every_function_has_category() {
    let reg = sample();
    for sig in &reg {
        // Just verify the category display name is non-empty
        assert!(!sig.category.display_name().is_empty(),
            "function '{}' has no category display name", sig.name);
    }
}

#[test]
fn by_category_covers_all() {
    let grouped = by_category(&sample());
    let total: usize = grouped.iter().map(|(_, funcs)| funcs.len()).sum();
    let reg = sample();
    assert_eq!(total, reg.len(), "by_category must cover all registered functions");
}

#[test]
fn category_parse_roundtrip() {
    for cat in FuncCategory::display_order() {
        let name = cat.display_name();
        let parsed = FuncCategory::parse(name);
        assert_eq!(parsed, Some(cat), "failed to parse category '{name}'");
    }
}

// --- Unified param model tests ---

#[test]
fn arithmetic_params_populated() {
    // Verify key arithmetic functions have params.
    for name in &["add", "mul", "div", "mod", "clamp", "interleave", "mixed_radix"] {
        let sig = *lookup(&sample(), name).unwrap_or_else(|| panic!("missing '{name}'"));
        assert!(!sig.params.is_empty(),
            "function '{}' should have params populated", name);
    }
}

#[test]
fn variadic_params_populated() {
    for name in &["sum", "product", "min", "max"] {
        let sig = *lookup(&sample(), name).unwrap_or_else(|| panic!("missing '{name}'"));
        assert!(matches!(sig.arity, Arity::VariadicWires { .. }),
            "function '{}' should have VariadicWires arity", name);
    }
}


#[test]
fn mixed_radix_is_variadic_consts() {
    let sig = *lookup(&sample(), "mixed_radix").unwrap();
    assert!(matches!(sig.arity, Arity::VariadicConsts { min_consts: 0 }),
        "mixed_radix should be VariadicConsts, got {:?}", sig.arity);
    assert!(matches!(sig.params[0].slot_type, SlotType::Wire),
        "first param is the u64 wire input");
}

#[test]
fn printf_has_const_str_param() {
    let sig = *lookup(&sample(), "printf").unwrap();
    assert!(!sig.params.is_empty(), "printf must have at least the format param");
    assert!(matches!(sig.params[0].slot_type, SlotType::ConstStr));
    assert!(matches!(sig.arity, Arity::VariadicWires { .. }));
}

#[test]
fn registry_keeps_the_order_of_its_modules() {
    let reg = sample();
    assert_eq!(reg.len(), 13);
    assert_eq!(reg[0].name, "hash");
    assert_eq!(reg[3].name, "mul");
    assert_eq!(reg[12].name, "printf");
}

#[test]
fn suggestions_prefer_the_nearest_name() {
    assert_eq!(suggest_function(&sample(), "prodct"), Some("product"));
    assert_eq!(suggest_function(&sample(), "sun"), Some("sum"));
}
