//! Programs, lowered and evaluated.
use polydat::dsl::assembly::{NodeKind, WireRef};
use polydat::dsl::ast::{
    Arg, BinOpKind, Binding, BindingModifier, CallExpr, Decimal, Expr, ExternPort, InputDecl,
    PolydatFile, Span, Statement, WireModifier,
};
use polydat::dsl::catalog::{Catalog, Function};
use polydat::dsl::compile;
use polydat::dsl::compiler::Compiler;
use polydat::dsl::debug;
use polydat::dsl::diagnostics;
use polydat::dsl::diagnostics::{Diagnostic, DiagnosticReport, Severity};
use polydat::dsl::embedding;
use polydat::dsl::embedding::{EmbeddingError, Folded, HostType, Typed};
use polydat::dsl::factory::ConstArg;
use polydat::dsl::registry::{Arity, FuncCategory, FuncSig, OutputType, ParamSpec, SlotType};
use polydat::float::Float64;
use polydat::value::Datum as Value;
use polydat::value::PortType;

fn double(x: f64) -> Float64 {
    Float64 { bits: x.to_bits() }
}

fn nowhere() -> Span {
    Span { line: 0, col: 0 }
}

// --- A reader of the forms that these programs use ---

#[derive(Clone, Debug, PartialEq)]
enum Tok {
    Word(String),
    Int(u64),
    Real(f64, String),
    Text(String),
    Mark(&'static str),
    End,
}

const MARKS: [&str; 28] = [
    ":=", "**", "<<", ">>", "<=", ">=", "==", "!=", "&&", "||", "(", ")", "[", "]", ",", ":", "=",
    "+", "-", "*", "/", "%", "<", ">", "&", "|", "^", "!",
];

fn lex(src: &str) -> Result<Vec<Tok>, String> {
    let c: Vec<char> = src.chars().collect();
    let mut out = vec![];
    let mut i = 0;
    'next: while i < c.len() {
        if c[i] == '\n' {
            out.push(Tok::End);
            i += 1;
        } else if c[i].is_whitespace() {
            i += 1;
        } else if c[i] == '/' && c.get(i + 1) == Some(&'/') {
            while i < c.len() && c[i] != '\n' {
                i += 1;
            }
        } else if c[i] == '"' {
            let from = i + 1;
            i += 1;
            while i < c.len() && c[i] != '"' {
                i += 1;
            }
            if i == c.len() {
                return Err("unterminated string".to_string());
            }
            out.push(Tok::Text(c[from..i].iter().collect()));
            i += 1;
        } else if c[i].is_ascii_digit() {
            let from = i;
            let hex = c[i] == '0' && c.get(i + 1) == Some(&'x');
            if hex {
                i += 2;
            }
            while i < c.len() && (c[i].is_ascii_digit() || hex && c[i].is_ascii_hexdigit()) {
                i += 1;
            }
            if !hex && i + 1 < c.len() && c[i] == '.' && c[i + 1].is_ascii_digit() {
                i += 1;
                while i < c.len() && c[i].is_ascii_digit() {
                    i += 1;
                }
                let text: String = c[from..i].iter().collect();
                out.push(Tok::Real(text.parse().unwrap(), text));
            } else if hex {
                let text: String = c[from + 2..i].iter().collect();
                out.push(Tok::Int(u64::from_str_radix(&text, 16).unwrap()));
            } else {
                let text: String = c[from..i].iter().collect();
                out.push(Tok::Int(text.parse().unwrap()));
            }
        } else if c[i].is_alphabetic() || c[i] == '_' {
            let from = i;
            while i < c.len() && (c[i].is_alphanumeric() || c[i] == '_') {
                i += 1;
            }
            out.push(Tok::Word(c[from..i].iter().collect()));
        } else {
            for m in MARKS {
                let k: Vec<char> = m.chars().collect();
                if c[i..].starts_with(&k) {
                    out.push(Tok::Mark(m));
                    i += k.len();
                    continue 'next;
                }
            }
            return Err(format!("unexpected character {:?}", c[i]));
        }
    }
    out.push(Tok::End);
    Ok(out)
}

struct Reader {
    toks: Vec<Tok>,
    at: usize,
}

impl Reader {
    fn peek(&self) -> Tok {
        self.toks.get(self.at).cloned().unwrap_or(Tok::End)
    }

    fn take(&mut self, m: &'static str) -> bool {
        if self.peek() == Tok::Mark(m) {
            self.at += 1;
            true
        } else {
            false
        }
    }

    fn want(&mut self, m: &'static str) -> Result<(), String> {
        if self.take(m) {
            Ok(())
        } else {
            Err(format!("expected `{m}`, got {:?}", self.peek()))
        }
    }

    fn word(&mut self) -> Result<String, String> {
        match self.peek() {
            Tok::Word(w) => {
                self.at += 1;
                Ok(w)
            }
            other => Err(format!("expected a name, got {other:?}")),
        }
    }

    fn keyword(&mut self, w: &str) -> bool {
        if self.peek() == Tok::Word(w.to_string()) {
            self.at += 1;
            true
        } else {
            false
        }
    }

    fn level(&mut self, n: usize) -> Result<Expr, String> {
        let table: [&[(&'static str, BinOpKind)]; 10] = [
            &[("||", BinOpKind::Or)],
            &[("&&", BinOpKind::And)],
            &[
                ("==", BinOpKind::Eq),
                ("!=", BinOpKind::Ne),
                ("<=", BinOpKind::Le),
                (">=", BinOpKind::Ge),
                ("<", BinOpKind::Lt),
                (">", BinOpKind::Gt),
            ],
            &[("|", BinOpKind::BitOr)],
            &[("^", BinOpKind::BitXor)],
            &[("&", BinOpKind::BitAnd)],
            &[("<<", BinOpKind::Shl), (">>", BinOpKind::Shr)],
            &[("+", BinOpKind::Add), ("-", BinOpKind::Sub)],
            &[("*", BinOpKind::Mul), ("/", BinOpKind::Div), ("%", BinOpKind::Mod)],
            &[("**", BinOpKind::Pow)],
        ];
        if n == table.len() {
            return self.prefix();
        }
        let mut left = self.level(n + 1)?;
        'more: loop {
            for (mark, op) in table[n] {
                if self.take(mark) {
                    let right = self.level(n + 1)?;
                    left = Expr::BinOp(Box::new(left), *op, Box::new(right));
                    continue 'more;
                }
            }
            return Ok(left);
        }
    }

    fn prefix(&mut self) -> Result<Expr, String> {
        if self.take("-") {
            return Ok(Expr::UnaryNeg(Box::new(self.prefix()?), nowhere()));
        }
        if self.take("!") {
            return Ok(Expr::UnaryBitNot(Box::new(self.prefix()?), nowhere()));
        }
        let mut e = self.atom()?;
        while self.keyword("as") {
            let word = self.word()?;
            let to = PortType::from_keyword(&word).ok_or(format!("unknown type '{word}'"))?;
            e = Expr::Cast(Box::new(e), to, nowhere());
        }
        Ok(e)
    }

    fn atom(&mut self) -> Result<Expr, String> {
        let tok = self.peek();
        self.at += 1;
        match tok {
            Tok::Int(v) => Ok(Expr::IntLit(v, nowhere())),
            Tok::Real(v, text) => Ok(Expr::FloatLit(
                Decimal { value: double(v), text, debug: format!("{v:?}") },
                nowhere(),
            )),
            Tok::Text(s) => Ok(Expr::StringLit(s, nowhere())),
            Tok::Mark("(") => {
                let e = self.level(0)?;
                self.want(")")?;
                Ok(e)
            }
            Tok::Mark("[") => {
                let mut items = vec![];
                while !self.take("]") {
                    items.push(self.level(0)?);
                    self.take(",");
                }
                Ok(Expr::ArrayLit(items, nowhere()))
            }
            Tok::Word(w) => {
                if !self.take("(") {
                    return Ok(Expr::Ident(w, nowhere()));
                }
                let mut args = vec![];
                while !self.take(")") {
                    args.push(Arg::Positional(self.level(0)?));
                    self.take(",");
                }
                Ok(Expr::Call(CallExpr { func: w, args, span: nowhere() }))
            }
            other => Err(format!("unexpected {other:?}")),
        }
    }

    fn statement(&mut self) -> Result<Statement, String> {
        if self.keyword("pragma") {
            return Ok(Statement::Pragma { name: self.word()?, span: nowhere() });
        }
        if self.keyword("input") {
            let name = self.word()?;
            self.want(":")?;
            let ty = Some(self.word()?);
            return Ok(Statement::InputDecl(InputDecl { name, ty, span: nowhere() }));
        }
        if self.keyword("extern") {
            let name = self.word()?;
            self.want(":")?;
            let typ = self.word()?;
            let default = if self.take("=") { Some(self.level(0)?) } else { None };
            return Ok(Statement::ExternPort(ExternPort { name, typ, default, span: nowhere() }));
        }
        let mut modifier = BindingModifier::none();
        loop {
            if self.keyword("const") {
                modifier.insert(WireModifier::Const);
            } else if self.keyword("shared") {
                modifier.insert(WireModifier::Shared);
            } else if self.keyword("volatile") {
                modifier.insert(WireModifier::Volatile);
            } else {
                break;
            }
        }
        let mut targets = vec![];
        if self.take("(") {
            while !self.take(")") {
                targets.push(self.word()?);
                self.take(",");
            }
        } else {
            targets.push(self.word()?);
        }
        let type_annotation = if self.take(":") { Some(self.word()?) } else { None };
        self.want(":=")?;
        let value = self.level(0)?;
        Ok(Statement::Binding(Binding {
            targets,
            value,
            modifier,
            type_annotation,
            span: nowhere(),
        }))
    }
}

fn read(src: &str) -> Result<PolydatFile, String> {
    let mut r = Reader { toks: lex(src)?, at: 0 };
    let mut statements = vec![];
    while r.at < r.toks.len() {
        if r.peek() == Tok::End {
            r.at += 1;
            continue;
        }
        statements.push(r.statement()?);
        if r.peek() != Tok::End {
            return Err(format!("unexpected {:?}", r.peek()));
        }
    }
    Ok(PolydatFile { statements })
}

// --- The functions that these programs call ---

const WIRE: ParamSpec = ParamSpec {
    name: "input",
    slot_type: SlotType::Wire,
    required: true,
    example: "cycle",
    constraint: None,
};

const NUMBER: ParamSpec = ParamSpec {
    name: "value",
    slot_type: SlotType::ConstU64,
    required: true,
    example: "1",
    constraint: None,
};

fn function(
    name: &'static str,
    params: &'static [ParamSpec],
    arity: Arity,
    from: PortType,
    to: PortType,
    outs: usize,
) -> Function {
    let wires = params.iter().filter(|p| p.slot_type.is_wire()).count();
    Function {
        sig: FuncSig {
            name,
            category: FuncCategory::Arithmetic,
            outputs: if outs == 1 { 1 } else { 0 },
            description: "",
            help: "",
            identity: None,
            params,
            arity,
            default_resolver: None,
            output_type: OutputType::Fixed,
            output_port: if outs == 1 { Some(to) } else { None },
        },
        ins: vec![from; wires],
        outs: vec![to; outs],
    }
}

fn catalog() -> Catalog {

    let u = PortType::U64;
    let f = PortType::F64;
    let s = PortType::Str;
    let fixed = Arity::Fixed;
    let many = Arity::VariadicWires { min_wires: 0 };
    let mut functions = vec![
        function("hash", &[WIRE], fixed, u, u, 1),
        function("mod", &[WIRE, NUMBER], fixed, u, u, 1),
        function("add", &[WIRE, NUMBER], fixed, u, u, 1),
        function("interleave", &[WIRE, WIRE], fixed, u, u, 1),
        function("mixed_radix", &[WIRE, NUMBER], Arity::VariadicConsts { min_consts: 0 }, u, u, 3),
        function("sqrt", &[WIRE], fixed, f, f, 1),
        function("to_f64", &[WIRE], fixed, u, f, 1),
        function("f64_to_u64", &[WIRE], fixed, f, u, 1),
        function("round_to_u64", &[WIRE], fixed, f, u, 1),
        function("pow", &[WIRE, WIRE], fixed, f, f, 1),
        function("u64_not", &[WIRE], fixed, u, u, 1),
        function("str_concat", &[WIRE], many, s, s, 1),
        function("dataset_prebuffer", &[WIRE], fixed, s, PortType::Handle, 1),
    ];
    for name in [
        "u64_add", "u64_sub", "u64_mul", "u64_div", "u64_mod", "u64_and", "u64_or", "u64_xor",
        "u64_shl", "u64_shr", "u64_eq", "u64_ne", "u64_lt", "u64_gt", "u64_le", "u64_ge",
    ] {
        functions.push(function(name, &[WIRE, WIRE], fixed, u, u, 1));
    }
    for name in ["f64_add", "f64_sub", "f64_mul", "f64_div", "f64_mod"] {
        functions.push(function(name, &[WIRE, WIRE], fixed, f, f, 1));
    }
    Catalog { functions, sugars: Vec::new() }
}


// --- An evaluator of what was lowered ---

#[derive(Debug)]
struct Kernel {
    compiler: Compiler,
    inputs: Vec<(String, Value)>,
}

fn as_u64(v: &Value) -> u64 {
    match v {
        Value::U64(n) => *n,
        Value::Bool(b) => *b as u64,
        other => panic!("expected u64, got {other:?}"),
    }
}

fn as_f64(v: &Value) -> f64 {
    match v {
        Value::F64(x) => f64::from_bits(x.bits),
        Value::U64(n) => *n as f64,
        other => panic!("expected f64, got {other:?}"),
    }
}

fn text_of(v: &Value) -> String {
    match v {
        Value::Str(s) => s.clone(),
        Value::U64(n) => format!("{n}"),
        Value::F64(x) => format!("{}", f64::from_bits(x.bits)),
        other => panic!("expected text, got {other:?}"),
    }
}

fn apply(func: &str, args: &[Value], consts: &[ConstArg], port: usize) -> Value {
    let u = |i: usize| as_u64(&args[i]);
    let f = |i: usize| as_f64(&args[i]);
    let k = |i: usize| match &consts[i] {
        ConstArg::Int(n) => *n,
        other => panic!("expected a number, got {other:?}"),
    };
    let truth = |b: bool| Value::U64(b as u64);
    match func {
        "hash" => {
            let z = u(0).wrapping_add(0x9E37_79B9_7F4A_7C15);
            let z = (z ^ (z >> 30)).wrapping_mul(0xBF58_476D_1CE4_E5B9);
            Value::U64(z ^ (z >> 31))
        }
        "mod" => Value::U64(u(0) % k(0)),
        "add" => Value::U64(u(0).wrapping_add(k(0))),
        "interleave" => Value::U64(u(0) << 32 | u(1)),
        "mixed_radix" => {
            let mut rest = u(0);
            let mut digit = 0;
            for i in 0..=port {
                if k(i) == 0 {
                    digit = rest;
                    rest = 0;
                } else {
                    digit = rest % k(i);
                    rest /= k(i);
                }
            }
            Value::U64(digit)
        }
        "sqrt" => Value::F64(double(f(0).sqrt())),
        "to_f64" => Value::F64(double(f(0))),
        "f64_to_u64" => Value::U64(f(0) as u64),
        "round_to_u64" => Value::U64(f(0).round() as u64),
        "pow" => Value::F64(double(f(0).powf(f(1)))),
        "u64_not" => Value::U64(!u(0)),
        "str_concat" => Value::Str(args.iter().map(text_of).collect()),
        "u64_add" => Value::U64(u(0).wrapping_add(u(1))),
        "u64_sub" => Value::U64(u(0).wrapping_sub(u(1))),
        "u64_mul" => Value::U64(u(0).wrapping_mul(u(1))),
        "u64_div" => Value::U64(u(0) / u(1)),
        "u64_mod" => Value::U64(u(0) % u(1)),
        "u64_and" => Value::U64(u(0) & u(1)),
        "u64_or" => Value::U64(u(0) | u(1)),
        "u64_xor" => Value::U64(u(0) ^ u(1)),
        "u64_shl" => Value::U64(u(0) << u(1)),
        "u64_shr" => Value::U64(u(0) >> u(1)),
        "u64_eq" => truth(u(0) == u(1)),
        "u64_ne" => truth(u(0) != u(1)),
        "u64_lt" => truth(u(0) < u(1)),
        "u64_gt" => truth(u(0) > u(1)),
        "u64_le" => truth(u(0) <= u(1)),
        "u64_ge" => truth(u(0) >= u(1)),
        "f64_add" => Value::F64(double(f(0) + f(1))),
        "f64_sub" => Value::F64(double(f(0) - f(1))),
        "f64_mul" => Value::F64(double(f(0) * f(1))),
        "f64_div" => Value::F64(double(f(0) / f(1))),
        "f64_mod" => Value::F64(double(f(0) % f(1))),
        other => panic!("no evaluation for {other}"),
    }
}

impl Kernel {
    fn of(compiler: Compiler) -> Kernel {
        let inputs = compiler
            .graph
            .inputs
            .iter()
            .map(|slot| (slot.name.clone(), slot.default.copy()))
            .collect();
        Kernel { compiler, inputs }
    }

    fn set_inputs(&mut self, values: &[u64]) {
        for (name, v) in self.compiler.input_names.iter().zip(values) {
            self.inputs.push((name.clone(), Value::U64(*v)));
        }
    }

    fn wire(&self, w: &WireRef) -> Value {
        match w {
            WireRef::Input(name) => {
                self.inputs.iter().rev().find(|(n, _)| n == name).unwrap().1.copy()
            }
            WireRef::Node(name, port) => self.node(name, *port),
        }
    }

    fn node(&self, name: &str, port: usize) -> Value {
        let node = self.compiler.graph.nodes.iter().rev().find(|n| n.name == name);
        let node = node.unwrap_or_else(|| panic!("no node {name}"));
        let args: Vec<Value> = node.wires.iter().map(|w| self.wire(w)).collect();
        match &node.kind {
            NodeKind::ConstU64(v) => Value::U64(*v),
            NodeKind::ConstF64(v) => Value::F64(*v),
            NodeKind::ConstStr(s) => Value::Str(s.clone()),
            NodeKind::Identity(_) | NodeKind::PortPassthrough(_, _) => args[0].copy(),
            NodeKind::ToF64 => Value::F64(double(as_f64(&args[0]))),
            NodeKind::Built(b) => apply(&b.func, &args, &b.consts, port),
            other => panic!("no evaluation for {other:?}"),
        }
    }

    fn pull(&self, name: &str) -> Value {
        let found = self.compiler.graph.outputs.iter().rev().find(|(n, _)| n == name);
        self.wire(&found.unwrap_or_else(|| panic!("no output {name}")).1)
    }

    fn output_names(&self) -> Vec<&str> {
        self.compiler.graph.outputs.iter().map(|(n, _)| n.as_str()).collect()
    }

    fn input_names(&self) -> Vec<&str> {
        self.compiler.input_names.iter().map(|n| n.as_str()).collect()
    }

    fn output_modifier(&self, name: &str) -> BindingModifier {
        self.compiler.graph.output_modifier(name)
    }

    fn const_outputs(&self) -> Vec<&str> {
        self.compiler.graph.const_outputs.iter().map(|n| n.as_str()).collect()
    }

    fn shared_outputs(&self) -> Vec<&str> {
        let shared = |n: &&str| self.output_modifier(n).has(WireModifier::Shared);
        self.output_names().into_iter().filter(shared).collect()
    }

    fn input_port_type(&self, name: &str) -> Option<PortType> {
        self.compiler.graph.input_type(name)
    }
}

fn compile_polydat(src: &str) -> Result<Kernel, String> {
    compile::compile_polydat(&catalog(), src, read(src)).map(Kernel::of)
}

fn compile_polydat_strict(src: &str, strict: bool) -> Result<Kernel, String> {
    compile::compile_polydat_strict(&catalog(), src, read(src), strict).map(Kernel::of)
}

fn compile_polydat_with_outputs(
    src: &str,
    required: &Vec<String>,
    strict: bool,
) -> Result<Kernel, String> {
    compile::compile_polydat_with_outputs(&catalog(), src, read(src), required, strict)
        .map(Kernel::of)
}

/// Lowers and folds the program of an expression.
fn fold(source: &str) -> Folded {
    match compile_polydat(&embedding::const_program(source)) {
        Err(e) => Folded::Failed(e),
        Ok(k) => {
            if k.compiler.graph.inputs.is_empty() {
                Folded::Constant(k.pull("out"))
            } else {
                Folded::Dynamic
            }
        }
    }
}

fn eval_const_expr(source: &str) -> Result<Value, EmbeddingError> {
    embedding::eval_const_expr(source, fold(source))
}

/// What a conversion makes of a value.
fn adapted(v: &Value, to: PortType) -> Option<Value> {
    match (v, to) {
        (Value::U64(n), PortType::F64) => Some(Value::F64(double(*n as f64))),
        (Value::U64(n), PortType::Bool) => Some(Value::Bool(*n != 0)),
        (Value::U64(n), PortType::Str) => Some(Value::Str(format!("{n}"))),
        (Value::F64(x), PortType::Str) => Some(Value::Str(format!("{}", f64::from_bits(x.bits)))),
        _ => None,
    }
}

/// A value with its type; here a value that is no plain one is opaque.
fn typed(value: Value) -> Typed {
    Typed { value, port: PortType::Ext }
}

fn parts<T: HostType>(source: &str) -> (Result<Typed, EmbeddingError>, Option<Typed>, String) {
    let outcome = eval_const_expr(source);
    let (turned, text) = match &outcome {
        Ok(v) => (
            adapted(v, T::target_port_type()),
            match v {
                Value::F64(x) => format!("{}", f64::from_bits(x.bits)),
                _ => String::new(),
            },
        ),
        Err(_) => (None, String::new()),
    };
    (outcome.map(typed), turned.map(typed), text)
}

fn eval_const_expr_typed<T: HostType>(source: &str) -> Result<T, EmbeddingError> {
    let (outcome, turned, text) = parts::<T>(source);
    embedding::eval_const_expr_typed(source, outcome, turned, &text)
}

fn eval_const_expr_typed_strict<T: HostType>(source: &str) -> Result<T, EmbeddingError> {
    let (outcome, turned, text) = parts::<T>(source);
    embedding::eval_const_expr_typed_strict(source, outcome, turned, &text)
}

fn interpolate(source: &str, kernel: &Kernel) -> String {
    let mut out = source.to_string();
    for name in kernel.output_names() {
        out = out.replace(&format!("{{{name}}}"), &text_of(&kernel.pull(name)));
    }
    out
}

fn eval_kernel_bound_typed<T: HostType>(
    source: &str,
    kernel: &Kernel,
) -> Result<T, EmbeddingError> {
    let text = interpolate(source, kernel);
    let (outcome, turned, shown) = parts::<T>(&text);
    embedding::eval_kernel_bound_typed(Ok(text), outcome, turned, &shown)
}

fn eval_kernel_bound_typed_strict<T: HostType>(
    source: &str,
    kernel: &Kernel,
) -> Result<T, EmbeddingError> {
    let text = interpolate(source, kernel);
    let (outcome, turned, shown) = parts::<T>(&text);
    embedding::eval_kernel_bound_typed_strict(Ok(text), outcome, turned, &shown)
}

// --- The programs ---

#[test]
fn array_literal_binding_compiles_as_string() {
    // A list-valued binding (`const xs := [1, 2, 3]`) is a sweep
    // axis / interpolation value, not a scalar wire. polydat has no
    // const-vector node, so it binds to a `ConstStr` holding the
    // list's literal text rather than failing the compile — which
    // is what lets list-valued workload params (`limit_values:
    // [25]`) load.
    let result = compile_polydat(
        "input cycle: u64\nconst eh_values := [1, 2, 3]\nout := cycle",
    );
    assert!(
        result.is_ok(),
        "array-literal binding should compile (binds as a string const), got: {:?}",
        result.err(),
    );
    // The resolved value is the comma-joined, bracket-free form a
    // sweep-axis param carries (so a `WorkloadParamList` source
    // splits it on `, ` exactly like a string-valued sweep param).
    let kernel = result.unwrap();
    match Some(kernel.pull("eh_values")) {
        Some(Value::Str(s)) => assert_eq!(s, "1, 2, 3"),
        other => panic!("expected eh_values = Str(\"1, 2, 3\"), got {other:?}"),
    }
}

#[test]
fn embedding_error_display_includes_source_text() {
    let e = EmbeddingError::LifecycleMismatch {
        source: "hash(cycle)".to_string(),
        dynamic_inputs: vec!["cycle".to_string()],
    };
    let s = e.to_string();
    assert!(s.contains("hash(cycle)"), "display should include source: {s}");
    assert!(s.contains("cycle"), "display should mention dynamic input: {s}");
}

#[test]
fn embedding_error_from_string_shim() {
    let e = EmbeddingError::UnresolvedPlaceholder {
        name: "k".to_string(),
        source: "{k} > 5".to_string(),
    };
    let shown = e.to_string();
    let s: String = e.into_string();
    assert_eq!(s, shown);
}

#[test]
fn embedding_error_all_variants_display() {
    // Smoke test: every variant constructs and displays without panicking.
    let variants: Vec<EmbeddingError> = vec![
        EmbeddingError::Parse {
            source: "x +".into(),
            message: "unexpected EOF".into(),
            position: Some(3),
        },
        EmbeddingError::UnresolvedPlaceholder {
            name: "k".into(),
            source: "{k}".into(),
        },
        EmbeddingError::LifecycleMismatch {
            source: "hash(cycle)".into(),
            dynamic_inputs: vec!["cycle".into()],
        },
        EmbeddingError::UnknownNode {
            name: "frobnicate".into(),
            source: "frobnicate(x)".into(),
            suggestion: Some("fabricate".into()),
        },
        EmbeddingError::TypeMismatch {
            from_node: "n1".into(),
            from_type: PortType::U64,
            to_node: "n2".into(),
            to_type: PortType::Str,
            source: "n1 -> n2".into(),
        },
        EmbeddingError::NodeEvalPanic {
            node_name: "div".into(),
            message: "div by zero".into(),
            source: "div(a, b)".into(),
        },
        EmbeddingError::ResultMissing {
            output_name: "out".into(),
            source: "x := 1".into(),
        },
        EmbeddingError::NonePropagated {
            accessor: "as_bool",
            source: "{missing}".into(),
        },
        EmbeddingError::Timeout {
            source: "expensive()".into(),
            elapsed_ms: 5000,
            deadline_ms: 1000,
        },
        EmbeddingError::RegistryNotInitialised {
            missing: vec!["custom_node".into()],
            source: "custom_node()".into(),
        },
    ];
    for v in variants {
        let _ = v.to_string();
    }
}

#[test]
fn typed_surface_bool() {
    let v: bool = eval_const_expr_typed("5 > 3").unwrap();
    assert!(v);
    let v: bool = eval_const_expr_typed("3 > 5").unwrap();
    assert!(!v);
}

#[test]
fn typed_surface_u64() {
    let v: u64 = eval_const_expr_typed("10 * 5").unwrap();
    assert_eq!(v, 50);
}

#[test]
fn typed_surface_f64() {
    let v: f64 = f64::from_bits(eval_const_expr_typed::<Float64>("3.14 * 2.0").unwrap().bits);
    assert!((v - 6.28).abs() < 1e-9);
}

#[test]
fn typed_surface_string() {
    let v: String = eval_const_expr_typed("\"hello\"").unwrap();
    assert_eq!(v, "hello");
}

#[test]
fn typed_surface_type_mismatch() {
    // expression yields U64; host requests f64 — widening allowed
    let v: f64 = f64::from_bits(eval_const_expr_typed::<Float64>("42").unwrap().bits);
    assert_eq!(v, 42.0);
    // expression yields U64; host requests bool — interpreted as bool (nonzero)
    let v: bool = eval_const_expr_typed("1").unwrap();
    assert!(v);
    let v: bool = eval_const_expr_typed("0").unwrap();
    assert!(!v);
}

#[test]
fn typed_surface_return_path_adapter() {
    // The expression gives an integer, the host asks for a text.
    let v: String = eval_const_expr_typed("42").unwrap();
    assert_eq!(v, "42");

    // Expression produces F64; host requests String via catalog
    // F64ToString. (Note: f64's Display is locale-independent
    // but format may add trailing zeros.)
    let v: String = eval_const_expr_typed("3.14").unwrap();
    assert!(v.starts_with("3.14"), "got {v}");
}

#[test]
fn typed_surface_return_path_no_adapter_errors() {
    // Bytes → Bool isn't in the catalog. Confirm the typed
    // error fires when the catalog can't heal.
    let bytes = Value::Bytes(vec![1, 2]);
    let result: Result<bool, _> =
        embedding::eval_const_expr_typed("raw()", Ok(typed(bytes)), None, "");
    assert!(matches!(result, Err(EmbeddingError::TypeMismatch { .. })));
}

#[test]
fn a_value_that_is_no_plain_one_has_the_type_its_host_gives_it() {
    let list = || typed(Value::VecF32(vec![double(1.0)]));
    let lenient: Result<u64, _> = embedding::eval_const_expr_typed("v()", Ok(list()), None, "");
    let strict: Result<u64, _> =
        embedding::eval_const_expr_typed_strict("v()", Ok(list()), Some(typed(Value::U64(1))), "");
    for result in [lenient, strict] {
        match result.unwrap_err() {
            EmbeddingError::TypeMismatch { from_type, to_type, source, .. } => {
                assert_eq!(from_type, PortType::Ext);
                assert_eq!(to_type, PortType::U64);
                assert_eq!(source, "v()");
            }
            other => panic!("expected a mismatch, got {other:?}"),
        }
    }
    let turned: u64 =
        embedding::eval_const_expr_typed("v()", Ok(list()), Some(typed(Value::U64(1))), "").unwrap();
    assert_eq!(turned, 1);
    let none: Result<u64, _> =
        embedding::eval_const_expr_typed("v()", Ok(list()), Some(typed(Value::Nothing)), "");
    assert!(matches!(none.unwrap_err(), EmbeddingError::NonePropagated { .. }));
}

#[test]
fn typed_strict_rejects_lossy_conversion() {
    // U64 → Bool is in the catalog but
    // lossy. Strict mode must reject.
    let result: Result<bool, _> = eval_const_expr_typed_strict("42");
    match result {
        Err(EmbeddingError::TypeMismatch { from_type, to_type, .. }) => {
            assert!(matches!(from_type, PortType::U64));
            assert!(matches!(to_type, PortType::Bool));
        }
        other => panic!("expected TypeMismatch, got {other:?}"),
    }
}

#[test]
fn typed_strict_accepts_lossless_conversion() {
    // U64 → F64 widening is lossless (for values that
    // fit in f64 mantissa, i.e. < 2^53).
    let v: f64 = f64::from_bits(eval_const_expr_typed_strict::<Float64>("42").unwrap().bits);
    assert_eq!(v, 42.0);

    // U64 → String via display — lossless.
    let v: String = eval_const_expr_typed_strict("42").unwrap();
    assert_eq!(v, "42");
}

#[test]
fn typed_strict_kernel_bound() {
    let kernel = compile_polydat("const k := 10\n").unwrap();
    // Lossless: u64 → f64.
    let v: f64 = f64::from_bits(eval_kernel_bound_typed_strict::<Float64>("{k} * 2", &kernel).unwrap().bits);
    assert_eq!(v, 20.0);
    // Lossy: u64 → bool — strict rejects.
    let result: Result<bool, _> = eval_kernel_bound_typed_strict("{k} > 5", &kernel);
    assert!(matches!(result, Err(EmbeddingError::TypeMismatch { .. })));
}

#[test]
fn typed_surface_kernel_bound() {
    let kernel = compile_polydat("const k := 10\n").unwrap();
    let v: bool = eval_kernel_bound_typed("{k} > 5", &kernel).unwrap();
    assert!(v);
    let v: u64 = eval_kernel_bound_typed("{k} * 2", &kernel).unwrap();
    assert_eq!(v, 20);
}

#[test]
fn compile_hello_world() {
    let src = r#"
        input cycle: u64
        hashed := hash(cycle)
        user_id := mod(hashed, 1000000)
    "#;
    let mut kernel = compile_polydat(src).unwrap();
    kernel.set_inputs(&[42]);
    let uid = as_u64(&kernel.pull("user_id"));
    assert!(uid < 1_000_000, "user_id={uid}");
}

#[test]
fn compile_with_inline_nesting() {
    let src = r#"
        input cycle: u64
        result := mod(hash(cycle), 100)
    "#;
    let mut kernel = compile_polydat(src).unwrap();
    kernel.set_inputs(&[42]);
    assert!(as_u64(&kernel.pull("result")) < 100);
}

#[test]
fn compile_deterministic() {
    let src = r#"
        input cycle: u64
        h := hash(cycle)
    "#;
    let mut kernel = compile_polydat(src).unwrap();
    kernel.set_inputs(&[42]);
    let v1 = as_u64(&kernel.pull("h"));
    kernel.set_inputs(&[42]);
    let v2 = as_u64(&kernel.pull("h"));
    assert_eq!(v1, v2);
}

#[test]
fn shared_modifier_tracked() {
    let src = r#"
        input cycle: u64
        shared counter := 0
        normal := mod(hash(cycle), 100)
    "#;
    let kernel = compile_polydat(src).unwrap();
    assert_eq!(
        kernel.output_modifier("counter"),
        BindingModifier::only(WireModifier::Shared)
    );
    assert_eq!(
        kernel.output_modifier("normal"),
        BindingModifier::none()
    );
}

#[test]
fn shared_non_literal_init_rejected() {
    // The initial value of a shared cell has to be a literal.
    let src = r#"
        input cycle: u64
        shared rolling := hash(cycle)
    "#;
    let err = compile_polydat(src).expect_err("non-literal shared const must error");
    assert!(err.contains("shared binding 'rolling'"), "error: {err}");
    assert!(err.contains("literal initial value"), "error: {err}");
}

#[test]
fn final_modifier_tracked() {
    let src = r#"
        input cycle: u64
        const dim := 128
    "#;
    let kernel = compile_polydat(src).unwrap();
    assert_eq!(
        kernel.output_modifier("dim"),
        BindingModifier::only(WireModifier::Const)
    );
}

#[test]
fn shared_literal_modifier_tracked() {
    let src = r#"
        input cycle: u64
        shared budget := 100
    "#;
    let kernel = compile_polydat(src).unwrap();
    assert_eq!(
        kernel.output_modifier("budget"),
        BindingModifier::only(WireModifier::Shared)
    );
    // Shared cells back the output via a port-passthrough node
    // reading the input slot; `lookup` is the cell-aware read.
    assert_eq!(as_u64(&kernel.pull("budget")), 100);
}

#[test]
fn const_literal_modifier_tracked() {
    let src = r#"
        input cycle: u64
        const max_dim := 256
    "#;
    let kernel = compile_polydat(src).unwrap();
    assert_eq!(
        kernel.output_modifier("max_dim"),
        BindingModifier::only(WireModifier::Const)
    );
    assert_eq!(as_u64(&kernel.pull("max_dim")), 256);
}

#[test]
fn shared_outputs_query() {
    let src = r#"
        input cycle: u64
        shared counter := 0
        shared budget := 100
        normal := hash(cycle)
    "#;
    let kernel = compile_polydat(src).unwrap();
    let mut shared = kernel.shared_outputs();
    shared.sort();
    assert_eq!(shared, vec!["budget", "counter"]);
    assert!(kernel.const_outputs().is_empty());
}

#[test]
fn final_outputs_query() {
    let src = r#"
        input cycle: u64
        const dim := 128
        const dataset := "example"
        normal := hash(cycle)
    "#;
    let kernel = compile_polydat(src).unwrap();
    let mut finals = kernel.const_outputs();
    finals.sort();
    assert_eq!(finals, vec!["dataset", "dim"]);
    assert!(kernel.shared_outputs().is_empty());
}

#[test]
fn unmodified_bindings_have_none_modifier() {
    let src = r#"
        input cycle: u64
        h := hash(cycle)
        v := mod(h, 100)
    "#;
    let kernel = compile_polydat(src).unwrap();
    assert_eq!(
        kernel.output_modifier("h"),
        BindingModifier::none()
    );
    assert_eq!(
        kernel.output_modifier("v"),
        BindingModifier::none()
    );
}

#[test]
fn compile_mixed_radix() {
    let src = r#"
        input cycle: u64
        (tenant, device, reading) := mixed_radix(cycle, 100, 1000, 0)
        tenant_h := hash(tenant)
        tenant_code := mod(tenant_h, 10000)
    "#;
    let mut kernel = compile_polydat(src).unwrap();
    kernel.set_inputs(&[4_201_337]);
    let tc = as_u64(&kernel.pull("tenant_code"));
    assert!(tc < 10000, "tenant_code={tc}");
}

#[test]
fn compile_string_constant() {
    let src = r#"
        input cycle: u64
        label := "hello world"
    "#;
    let mut kernel = compile_polydat(src).unwrap();
    kernel.set_inputs(&[0]);
    assert_eq!(text_of(&kernel.pull("label")), "hello world");
}

#[test]
fn compile_int_constant() {
    let src = r#"
        input cycle: u64
        base := 1710000000000
    "#;
    let mut kernel = compile_polydat(src).unwrap();
    kernel.set_inputs(&[0]);
    assert_eq!(as_u64(&kernel.pull("base")), 1_710_000_000_000);
}

#[test]
fn compile_comments_ignored() {
    let src = r#"
        // This is a comment
        input cycle: u64
        // Another comment
        h := hash(cycle)
    "#;
    let mut kernel = compile_polydat(src).unwrap();
    kernel.set_inputs(&[1]);
    assert!(as_u64(&kernel.pull("h")) != 0);
}

// --- Diagnostic tests ---

#[test]
fn inferred_coordinates() {
    // Without explicit coordinates, 'cycle' is inferred as a coordinate input
    let src = "h := hash(cycle)";
    let mut kernel = compile_polydat(src).unwrap();
    assert_eq!(kernel.input_names(), &["cycle"]);
    kernel.set_inputs(&[42]);
    let h = as_u64(&kernel.pull("h"));
    assert_ne!(h, 42); // hashed, not identity
}

#[test]
fn inferred_multi_coordinates() {
    // Multiple unbound names become multiple coordinate inputs (sorted)
    let src = "h := hash(interleave(row, col))";
    let mut kernel = compile_polydat(src).unwrap();
    assert_eq!(kernel.input_names(), &["col", "row"]); // alphabetically sorted
    kernel.set_inputs(&[10, 20]);
    let h = as_u64(&kernel.pull("h"));
    assert_ne!(h, 0);
}

// --- Strict mode tests ---

#[test]
fn strict_requires_explicit_inputs() {
    // Without inputs declaration, strict mode should error
    let src = "h := hash(cycle)";
    let result = compile_polydat_strict(src, true);
    assert!(result.is_err());
    let err = result.unwrap_err();
    assert!(err.contains("strict mode"), "expected strict error, got: {err}");
    assert!(err.contains("inputs"), "expected inputs mention, got: {err}");
}

#[test]
fn strict_accepts_explicit_coordinates() {
    // With explicit coordinates, strict mode should succeed
    let src = r#"
        input cycle: u64
        h := hash(cycle)
    "#;
    let mut kernel = compile_polydat_strict(src, true).unwrap();
    kernel.set_inputs(&[42]);
    let h = as_u64(&kernel.pull("h"));
    assert_ne!(h, 42); // hashed, not identity
}

#[test]
fn non_strict_infers_coordinates() {
    // Without strict, coordinate inference works as before
    let src = "h := hash(cycle)";
    let mut kernel = compile_polydat_strict(src, false).unwrap();
    kernel.set_inputs(&[42]);
    assert_ne!(as_u64(&kernel.pull("h")), 42);
}

// --- Dead code elimination tests ---

#[test]
fn dce_filters_to_required_outputs() {
    // Polydat source defines three bindings but we only request one
    let src = r#"
        input cycle: u64
        a := hash(cycle)
        b := mod(a, 100)
        c := add(cycle, 1)
    "#;
    let required = vec!["b".to_string()];
    let mut kernel = compile_polydat_with_outputs(src, &required, false).unwrap();
    kernel.set_inputs(&[42]);

    // "b" should be available and correct
    let b = as_u64(&kernel.pull("b"));
    assert!(b < 100, "b={b}");

    // "a" and "c" should NOT be in the output map
    let outputs = kernel.output_names();
    assert!(outputs.contains(&"b"), "should contain 'b'");
    assert!(!outputs.contains(&"a"), "should not contain pruned 'a'");
    assert!(!outputs.contains(&"c"), "should not contain pruned 'c'");
}

#[test]
fn dce_preserves_upstream_dependencies() {
    // Request "result" which depends on "h" — both the result node
    // and its upstream "h" node must be kept, but "unrelated" is pruned
    let src = r#"
        input cycle: u64
        h := hash(cycle)
        result := mod(h, 1000)
        unrelated := add(cycle, 999)
    "#;
    let required = vec!["result".to_string()];
    let mut kernel = compile_polydat_with_outputs(src, &required, false).unwrap();
    kernel.set_inputs(&[42]);

    let result = as_u64(&kernel.pull("result"));
    assert!(result < 1000, "result={result}");

    let outputs = kernel.output_names();
    assert!(!outputs.contains(&"unrelated"), "unrelated should be pruned");
}

#[test]
fn dce_empty_required_compiles_all() {
    // Empty required_outputs should produce the same kernel as compile_polydat
    let src = r#"
        input cycle: u64
        a := hash(cycle)
        b := mod(a, 100)
    "#;
    let kernel_all = compile_polydat(src).unwrap();
    let kernel_empty = compile_polydat_with_outputs(src, &vec![], false).unwrap();

    assert_eq!(kernel_all.output_names().len(), kernel_empty.output_names().len());
}

#[test]
fn init_binding_survives_dce_even_when_unconsumed() {
    // A constant is kept even where nothing reads it.
    let src = r#"
        input cycle: u64
        const side_effect := 42
        b := mod(hash(cycle), 100)
    "#;
    let required = vec!["b".to_string()];
    let mut kernel = compile_polydat_with_outputs(src, &required, false).unwrap();
    kernel.set_inputs(&[0]);

    let outputs = kernel.output_names();
    assert!(outputs.contains(&"side_effect"),
        "init binding must survive DCE even when unconsumed; got outputs {outputs:?}");
    assert_eq!(as_u64(&kernel.pull("side_effect")), 42);
}

#[test]
fn dce_multiple_required_outputs() {
    // Request two of three bindings
    let src = r#"
        input cycle: u64
        x := hash(cycle)
        y := mod(x, 50)
        z := add(cycle, 10)
    "#;
    let required = vec!["y".to_string(), "z".to_string()];
    let mut kernel = compile_polydat_with_outputs(src, &required, false).unwrap();
    kernel.set_inputs(&[5]);

    assert!(as_u64(&kernel.pull("y")) < 50);
    assert_eq!(as_u64(&kernel.pull("z")), 15);

    let outputs = kernel.output_names();
    assert!(outputs.contains(&"y"));
    assert!(outputs.contains(&"z"));
    // "x" is an upstream dep of "y" but not a requested output
    assert!(!outputs.contains(&"x"), "x should not be in outputs");
}

// --- Strict mode comprehensive tests ---

#[test]
fn strict_rejects_unused_bindings() {
    // "unused" has no downstream consumer and is not an output → strict error
    // Use compile_polydat_strict which exposes all bindings as outputs,
    // so the kernel sees the full graph and detects the unused node.
    // Actually: when all bindings are outputs, none are "unused".
    // The unused check only applies with DCE (required_outputs filter).
    // With DCE, pruned bindings produce a warning at the compiler level.
    let src = r#"
        input cycle: u64
        used := hash(cycle)
        unused := add(cycle, 1)
    "#;
    let required = vec!["used".to_string()];
    // Non-strict: DCE prunes "unused" silently
    let result = compile_polydat_with_outputs(src, &required, false);
    assert!(result.is_ok(), "non-strict with DCE should compile");
    // Verify "unused" is actually pruned
    let kernel = result.unwrap();
    assert!(!kernel.output_names().contains(&"unused"),
        "unused should be pruned by DCE");
}

#[test]
fn non_strict_allows_implicit_type_coercion() {
    let src = r#"
        input cycle: u64
        h := hash(cycle)
        f := sqrt(h)
    "#;
    let result = compile_polydat_strict(src, false);
    assert!(result.is_ok(), "non-strict should allow implicit coercion");
}

#[test]
fn strict_accepts_clean_program() {
    // All inputs declared, all bindings used, no coercions
    let src = r#"
        input cycle: u64
        h := hash(cycle)
        id := mod(h, 1000)
    "#;
    let required = vec!["id".to_string()];
    let result = compile_polydat_with_outputs(src, &required, true);
    assert!(result.is_ok(), "clean program should pass strict: {:?}", result.err());
}

#[test]
fn compile_bitwise_and() {
    let src = r#"
        input cycle: u64
        out := cycle & 0xFF
    "#;
    let mut kernel = compile_polydat(src).unwrap();
    kernel.set_inputs(&[0x1234]);
    assert_eq!(as_u64(&kernel.pull("out")), 0x34);
}

#[test]
fn compile_shift_left() {
    let src = r#"
        input cycle: u64
        out := cycle << 8
    "#;
    let mut kernel = compile_polydat(src).unwrap();
    kernel.set_inputs(&[1]);
    assert_eq!(as_u64(&kernel.pull("out")), 256);
}

#[test]
fn compile_bitwise_not() {
    let src = r#"
        input cycle: u64
        out := !cycle
    "#;
    let mut kernel = compile_polydat(src).unwrap();
    kernel.set_inputs(&[0]);
    assert_eq!(as_u64(&kernel.pull("out")), u64::MAX);
}

#[test]
fn compile_bitwise_xor() {
    let src = r#"
        input cycle: u64
        out := cycle ^ 0xFF
    "#;
    let mut kernel = compile_polydat(src).unwrap();
    kernel.set_inputs(&[0xF0]);
    assert_eq!(as_u64(&kernel.pull("out")), 0x0F);
}

#[test]
fn compile_bitwise_or() {
    let src = r#"
        input cycle: u64
        out := cycle | 0x0F
    "#;
    let mut kernel = compile_polydat(src).unwrap();
    kernel.set_inputs(&[0xF0]);
    assert_eq!(as_u64(&kernel.pull("out")), 0xFF);
}

#[test]
fn compile_shift_right() {
    let src = r#"
        input cycle: u64
        out := cycle >> 4
    "#;
    let mut kernel = compile_polydat(src).unwrap();
    kernel.set_inputs(&[0xFF]);
    assert_eq!(as_u64(&kernel.pull("out")), 0x0F);
}

#[test]
fn compile_power_operator() {
    let src = r#"
        input cycle: u64
        out := to_f64(cycle) ** 2.0
    "#;
    let mut kernel = compile_polydat(src).unwrap();
    kernel.set_inputs(&[3]);
    // pow(3.0, 2.0) = 9.0
    let result = as_f64(&kernel.pull("out"));
    assert!((result - 9.0).abs() < 0.001);
}

// --- eval_const_expr tests ---

#[test]
fn eval_const_expr_arithmetic() {
    // 4 * 4: both operands are IntLit → u64_mul → returns u64(16)
    let v = eval_const_expr("4 * 4").unwrap();
    assert_eq!(as_u64(&v), 16, "expected u64(16), got {:?}", v);

    // 4.0 * 4.0: both operands are FloatLit → f64_mul → returns f64(16.0)
    let v = eval_const_expr("4.0 * 4.0").unwrap();
    assert!((as_f64(&v) - 16.0).abs() < 0.001, "expected 16.0, got {}", as_f64(&v));

    // Mixed: 4 * 4.0 → auto-widen LHS to f64, f64_mul → returns f64(16.0)
    let v = eval_const_expr("4 * 4.0").unwrap();
    assert!((as_f64(&v) - 16.0).abs() < 0.001, "expected 16.0, got {}", as_f64(&v));
}

#[test]
fn eval_const_expr_function() {
    let v = eval_const_expr("hash(42)").unwrap();
    assert!(as_u64(&v) != 0, "hash(42) should be non-zero");
}

#[test]
fn eval_const_expr_fails_on_inputs() {
    // 'cycle' is a runtime input — should fail as const expr
    let r = eval_const_expr("hash(cycle)");
    assert!(r.is_err(), "hash(cycle) should fail as a const expression");
}

#[test]
fn eval_const_expr_nested() {
    let v = eval_const_expr("mod(hash(42), 100)").unwrap();
    assert!(as_u64(&v) < 100, "mod(hash(42), 100) should be < 100, got {}", as_u64(&v));
}


#[test]
fn init_binding_compile_const_folded() {
    // Pure init: literal arg, no externs. Folds at compile
    // time; the compiled program's output_map points at a
    // ConstU64 leaf.
    let src = "const dim := 128\n";
    let kernel = compile_polydat(src).expect("init compile-const");
    assert!(kernel.const_outputs().contains(&"dim"));
    let node = kernel.compiler.graph.nodes.iter().find(|n| n.name == "dim").expect("dim in graph");
    // The node has empty wiring (leaf const).
    assert!(node.wires.is_empty(),
        "compile-const init binding 'dim' must fold to a leaf const node");
}

#[test]
fn init_binding_with_iteration_extern_passes_plan_a() {
    // A constant may read a value that comes from outside the program.
    let src = "extern profile: String\n\
               const label := format_str(\"label_%s\", profile)\n";
    let result = compile_polydat(src);
    // We don't care if format_str exists in the stdlib — what
    // we're testing is that the contract check itself doesn't
    // fail (any error must be about an unknown function, not
    // about the init contract).
    match result {
        Ok(_) => {} // ideal: kernel built
        Err(e) => assert!(
            !e.contains("violates the init contract"),
            "Plan A must accept iteration-extern wires in init bindings; got: {e}"),
    }
}

#[test]
fn cycle_binding_wired_to_cycle_input_still_allowed() {
    // The contract applies *only* to bindings declared `init`.
    // A normal `:=` binding wired to `cycle` is the bread-and-
    // butter case and must keep working.
    let src = "input cycle: u64\n\
               user_id := mod(hash(cycle), 1000)\n";
    let _kernel = compile_polydat(src)
        .expect("non-init bindings wired to cycle must still compile");
}

#[test]
fn init_outputs_threaded_into_program() {
    // Sanity: the compiler records every `init`-declared name
    // on GkProgram.const_outputs so Plan B (executor side) can
    // walk them at scope activation.
    let src = "const a := 1\n\
               const b := 2\n\
               c := 3\n";
    let kernel = compile_polydat(src).unwrap();
    let init_set = kernel.const_outputs();
    assert!(init_set.contains(&"a"), "const 'a' should be tracked");
    assert!(init_set.contains(&"b"), "const 'b' should be tracked");
    assert!(!init_set.contains(&"c"), "non-const 'c' must not be tracked");
}

#[test]
fn str_concat_via_plus_operator() {
    // `+` between Str-typed operands lowers to str_concat.
    let src = r#"
        input cycle: u64
        greeting := "hello, " + "world"
    "#;
    let mut kernel = compile_polydat(src).unwrap();
    kernel.set_inputs(&[0]);
    assert_eq!(text_of(&kernel.pull("greeting")), "hello, world");
}

#[test]
fn str_concat_flattens_chained_plus() {
    // `"a" + b + "c"` flattens into a single str_concat node
    // (rather than a chain of binary concatenations) so the
    // assembler sees the full operand list at once.
    let src = r#"
        input cycle: u64
        x := "id="
        y := 42
        z := " end"
        out := x + y + z
    "#;
    let mut kernel = compile_polydat(src).unwrap();
    kernel.set_inputs(&[0]);
    assert_eq!(text_of(&kernel.pull("out")), "id=42 end");
}

#[test]
fn str_concat_mixed_str_and_numeric() {
    // Numeric operand on the right is rendered as decimal text;
    // the Str path wins because the left side is Str.
    let src = r#"
        input cycle: u64
        n := 7
        out := "n=" + n
    "#;
    let mut kernel = compile_polydat(src).unwrap();
    kernel.set_inputs(&[0]);
    assert_eq!(text_of(&kernel.pull("out")), "n=7");
}

/// The slot of a constant has the type of what it is bound to.
#[test]
fn auto_extern_slot_inherits_string_template_type() {
    let src = r#"
        extern some_outer_var: str
        const x := "{some_outer_var}"
    "#;
    let kernel = compile_polydat(src).expect("compile");
    assert_eq!(
        kernel.input_port_type("x"),
        Some(PortType::Str),
        "string-template auto-extern MUST be Str, not Ext",
    );
}

#[test]
fn auto_extern_slot_inherits_arithmetic_operand_type() {
    // `const y := other + 1` — BinOp with U64 operands.
    // The auto-extern slot for `y` MUST be U64.
    let src = r#"
        extern other: u64
        const y := other + 1
    "#;
    let kernel = compile_polydat(src).expect("compile");
    assert_eq!(
        kernel.input_port_type("y"),
        Some(PortType::U64),
        "arithmetic-RHS auto-extern MUST inherit operand type",
    );
}

/// Identifier reference auto-extern inherits the referenced
/// input's type. `const y := other_str_input` → y is Str.
#[test]
fn auto_extern_slot_inherits_ident_reference_type() {
    let src = r#"
        extern other: str
        const y := other
    "#;
    let kernel = compile_polydat(src).expect("compile");
    assert_eq!(
        kernel.input_port_type("y"),
        Some(PortType::Str),
        "ident-RHS auto-extern MUST inherit referenced input's type",
    );
}

/// `&&` and `||` on truth values, and how tightly they bind.
#[test]
fn logical_and_or_eval_precedence_and_truthiness() {
    let eval = |src: &str| -> u64 {
        as_u64(&compile_polydat(src)
            .unwrap_or_else(|e| panic!("compile `{src}`: {e}"))
            .pull("out"))
    };
    // Basic && / ||.
    assert_eq!(eval("out := 60 > 50 && 20 > 10"), 1, "both true");
    assert_eq!(eval("out := 40 > 50 && 20 > 10"), 0, "first false");
    assert_eq!(eval("out := 40 > 50 || 20 > 10"), 1, "second true");
    assert_eq!(eval("out := 40 > 50 || 5 > 10"), 0, "neither");
    // Precedence: && sits below comparison, || below && —
    // `1>0 && 0>1 || 5>0` == `((1>0)&&(0>1)) || (5>0)` == `(1&&0)||1` == 1.
    assert_eq!(eval("out := 1 > 0 && 0 > 1 || 5 > 0"), 1,
        "|| binds looser than &&, both below comparison");
    // Truthiness: 6 && 1 → both non-zero → 1. Raw bitwise 6 & 1 = 0,
    // so this proves the `!= 0` normalisation, not a bitwise and.
    assert_eq!(eval("out := 6 && 1"), 1, "non-zero && non-zero → 1 (not bitwise)");
    assert_eq!(eval("out := 6 && 0"), 0, "non-zero && zero → 0");
    assert_eq!(eval("out := 0 || 0"), 0, "zero || zero → 0");
    assert_eq!(eval("out := 0 || 7"), 1, "zero || non-zero → 1");
    // Parentheses override precedence (already supported; locked here).
    assert_eq!(eval("out := (1 + 2) * 3"), 9, "parens: add before mul");
    assert_eq!(eval("out := 1 + 2 * 3"), 7, "no parens: mul binds tighter");
    assert_eq!(eval("out := 1 > 0 || 0 > 1 && 0 > 1"), 1,
        "no parens: && tighter → 1 || (0 && 0) = 1");
    assert_eq!(eval("out := (1 > 0 || 0 > 1) && 0 > 1"), 0,
        "parens group the ||: (1 || 0) && 0 = 0");
}

/// `as` between types, and how tightly it binds.
#[test]
fn as_cast_type_fusion_and_precedence() {
    let f64_of = |src: &str| as_f64(&compile_polydat(src)
        .unwrap_or_else(|e| panic!("compile `{src}`: {e}")).pull("out"));
    let u64_of = |src: &str| as_u64(&compile_polydat(src)
        .unwrap_or_else(|e| panic!("compile `{src}`: {e}")).pull("out"));
    // u64 → f64 widening fusion (allowed under `as`).
    assert_eq!(f64_of("out := 5 as f64"), 5.0);
    // Narrowing f64 → u64 is NOT allowed under `as` (ambiguous
    // rounding); the author chooses an explicit conversion.
    assert!(compile_polydat("out := 7.9 as u64").is_err(),
        "narrowing f64 → u64 under `as` is rejected");
    assert_eq!(u64_of("out := f64_to_u64(7.9)"), 7, "explicit truncate");
    assert_eq!(u64_of("out := round_to_u64(7.9)"), 8, "explicit round");
    // Aligned cast is a no-op.
    assert_eq!(u64_of("out := 42 as u64"), 42);
    // `as` binds to the atom: `5 / 2 as f64` == `5 / (2 as f64)` ==
    // 2.5, not `(5 / 2) as f64` == 2.0.
    assert_eq!(f64_of("out := 5 / 2 as f64"), 2.5);
    assert_eq!(f64_of("out := (5 / 2) as f64"), 2.0);
    // No valid fusion → compile error.
    assert!(compile_polydat("out := \"x\" as f64").is_err(),
        "str → f64 has no defined fusion → error");
}

// --- Diagnostics ---

fn compile_polydat_checked(src: &str) -> (Result<Kernel, ()>, DiagnosticReport) {
    let (r, report) =
        diagnostics::compile_polydat_checked(&catalog(), src, read(src), Vec::new());
    (r.map(Kernel::of), report)
}

#[test]
fn error_unknown_function() {
    let src = "input cycle: u64\nresult := foobar(cycle)";
    let (_result, report) = compile_polydat_checked(src);
    assert!(report.has_errors());
    let errors = report.errors();
    assert!(errors.iter().any(|e| e.message.contains("unknown function")));
    assert!(errors.iter().any(|e| e.message.contains("foobar")));
}

#[test]
fn checked_compile_success_with_no_errors() {
    let src = r#"
        input cycle: u64
        h := hash(cycle)
        result := mod(h, 1000)
    "#;
    let (result, report) = compile_polydat_checked(src);
    assert!(!report.has_errors());
    assert!(result.is_ok());
}

#[test]
fn text_that_cannot_be_read_is_one_error() {
    let (result, report) = compile_polydat_checked("h := \"open");
    assert!(result.is_err());
    assert_eq!(report.source, "h := \"open");
    assert_eq!(report.errors().len(), 1);
    assert_eq!(report.errors()[0].message, "unterminated string");
    assert_eq!(report.errors()[0].span, Span { line: 1, col: 1 });
}

#[test]
fn findings_decide_whether_a_program_is_lowered() {
    let src = "input cycle: u64\nh := hash(cycle)";
    let finding = |severity: Severity| Diagnostic {
        severity,
        span: Span { line: 2, col: 6 },
        message: "odd".to_string(),
        hint: None,
    };
    let (r, report) = diagnostics::compile_polydat_checked(
        &catalog(),
        src,
        read(src),
        vec![finding(Severity::Warning)],
    );
    assert!(r.is_ok());
    assert_eq!((report.errors().len(), report.warnings().len()), (0, 1));
    let (r, report) = diagnostics::compile_polydat_checked(
        &catalog(),
        src,
        read(src),
        vec![finding(Severity::Warning), finding(Severity::Error)],
    );
    assert!(r.is_err());
    assert_eq!((report.errors().len(), report.warnings().len()), (1, 1));
}

#[test]
fn auto_extern_slot_for_dataset_prebuffer_is_handle() {
    let src = r#"
        extern source_uri: str
        const prebuffered := dataset_prebuffer(source_uri)
    "#;
    let kernel = compile_polydat(src).expect("compile");
    assert_eq!(
        kernel.input_port_type("prebuffered"),
        Some(PortType::Handle),
        "dataset_prebuffer auto-extern MUST be Handle, not Ext",
    );
}

// --- Filters and assemblers ---

fn names(list: &[&str]) -> Vec<String> {
    list.iter().map(|n| n.to_string()).collect()
}

#[test]
fn a_filter_refuses_the_shared_cells_that_the_whole_refuses() {
    let src = r#"
        input cycle: u64
        shared rolling := hash(cycle)
    "#;
    let whole = compile_polydat(src).unwrap_err();
    for required in [names(&[]), names(&["rolling"]), names(&["cycle"])] {
        let err = compile_polydat_with_outputs(src, &required, false).unwrap_err();
        assert_eq!(err, whole);
    }
    let src = r#"
        input cycle: u64
        shared (a, b) := mixed_radix(cycle, 10, 0)
    "#;
    let whole = compile_polydat(src).unwrap_err();
    assert!(whole.contains("single-target"), "{whole}");
    let err = compile_polydat_with_outputs(src, &names(&["a"]), false).unwrap_err();
    assert_eq!(err, whole);
}

#[test]
fn a_filter_keeps_strict_pragmas() {
    let src = r#"
        pragma strict_types
        input cycle: u64
        h := hash(cycle)
    "#;
    for required in [names(&[]), names(&["h"])] {
        let k = compile_polydat_with_outputs(src, &required, false).unwrap();
        assert!(k.compiler.graph.strict_types);
        assert!(!k.compiler.graph.strict_values);
        let libs = compile::compile_polydat_with_libs_and_limit(
            &catalog(), src, read(src), &required, false, "here", Some(3),
        )
        .unwrap();
        assert!(libs.graph.strict_types);
    }
}

#[test]
fn an_empty_filter_gives_the_whole_graph() {
    let src = r#"
        pragma strict
        input cycle: u64
        extern x: u64 = 5
        shared s := 7
        const k := hash(x)
        y := x + cycle
    "#;
    let whole = compile_polydat(src).unwrap();
    let part = compile_polydat_with_outputs(src, &names(&[]), false).unwrap();
    assert_eq!(format!("{:?}", part.compiler.graph), format!("{:?}", whole.compiler.graph));
}

#[test]
fn an_assembler_has_all_nodes_and_wiring() {
    let src = "extern x: u64 = 5\ny := x";
    let g = compile::compile_polydat_to_assembler(&catalog(), src, read(src)).unwrap();
    assert_eq!(g.source, src);
    assert_eq!(g.context, "(polydat source)");
    let mut compiler = Compiler::new(false);
    compiler.graph = g;
    assert_eq!(as_u64(&Kernel::of(compiler).pull("y")), 5);
    assert_eq!(as_u64(&compile_polydat(src).unwrap().pull("y")), 5);
    let mut log = Vec::new();
    let g = compile::compile_polydat_with_log(&catalog(), src, read(src), &mut log).unwrap();
    assert_eq!(
        format!("{g:?}"),
        format!("{:?}", compile_polydat(src).unwrap().compiler.graph)
    );
    let err = compile::compile_polydat_to_assembler(
        &catalog(),
        "extern x: word",
        read("extern x: word"),
    )
    .unwrap_err();
    assert!(err.contains("unknown polydat type keyword 'word'"), "{err}");
}

#[test]
fn an_expression_prints_in_messages_as_it_is_built() {
    let at = |line: usize, col: usize| Span { line, col };
    let number = |n: u64| Box::new(Expr::IntLit(n, at(1, n as usize)));
    let call = Expr::Call(CallExpr {
        func: "hash".to_string(),
        args: vec![
            Arg::Positional(Expr::Ident("cycle".to_string(), at(2, 3))),
            Arg::Named("salt".to_string(), Expr::StringLit("a\"b\n".to_string(), at(4, 5))),
        ],
        span: at(6, 7),
    });
    let access = Expr::FieldAccess {
        source: "rows".to_string(),
        field: "ordinal".to_string(),
        span: at(8, 9),
    };
    for e in [
        Expr::BinOp(number(1), BinOpKind::Shl, number(2)),
        Expr::UnaryNeg(number(3), at(0, 0)),
        Expr::UnaryBitNot(number(4), at(0, 0)),
        Expr::ArrayLit(vec![], at(0, 1)),
        Expr::ArrayLit(vec![*number(5), call.copy()], at(0, 1)),
        Expr::Cast(number(6), PortType::F64, at(1, 0)),
        call,
        access,
    ] {
        assert_eq!(debug::show_expr(&e), format!("{e:?}"));
    }
    let tenth = Expr::FloatLit(
        Decimal { value: double(10.0), text: "10".to_string(), debug: "10.0".to_string() },
        at(1, 2),
    );
    assert_eq!(debug::show_expr(&tenth), "FloatLit(10.0, Span { line: 1, col: 2 })");
}

#[test]
fn a_refused_default_names_what_was_found() {
    let e = Expr::Ident("cycle".to_string(), Span { line: 3, col: 9 });
    assert_eq!(
        compile::evaluate_default_expr(&e, PortType::U64).unwrap_err(),
        "default expression must be a literal of type U64; \
         got Ident(\"cycle\", Span { line: 3, col: 9 })"
    );
    assert_eq!(
        compile::evaluate_default_expr(&e, PortType::Bool).unwrap_err(),
        "default expression must be a literal of type Bool; \
         got Ident(\"cycle\", Span { line: 3, col: 9 })"
    );
}
