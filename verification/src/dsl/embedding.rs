//! Expressions that a host evaluates for itself.
//!
//! A host hands in a text, and gets a value of a type of its own or an
//! error it can tell apart. What the evaluation of the text came to is
//! handed in; what is made of it is decided here.
use crate::chars;
use crate::float;
use crate::float::Float64;
use crate::value;
use crate::value::{Datum, DatumV, PortType};
use vstd::prelude::*;

verus! {

// ---------------------------------------------------------------------
// Errors
// ---------------------------------------------------------------------

/// Why a text could not be evaluated for a host.
#[derive(Clone, Debug)]
pub enum EmbeddingError {
    /// The text is no expression.
    Parse { source: String, message: String, position: Option<usize> },
    /// A placeholder has no binding.
    UnresolvedPlaceholder { name: String, source: String },
    /// The expression depends on what is known at run time only.
    LifecycleMismatch { source: String, dynamic_inputs: Vec<String> },
    /// A function is not registered.
    UnknownNode { name: String, source: String, suggestion: Option<String> },
    /// Two types that nothing turns into each other meet on a wire.
    TypeMismatch {
        from_node: String,
        from_type: PortType,
        to_node: String,
        to_type: PortType,
        source: String,
    },
    /// A node failed while it was evaluated.
    NodeEvalPanic { node_name: String, message: String, source: String },
    /// The output is not there.
    ResultMissing { output_name: String, source: String },
    /// There is no value where the host needs one.
    NonePropagated { accessor: &'static str, source: String },
    /// The evaluation took too long.
    Timeout { source: String, elapsed_ms: u64, deadline_ms: u64 },
    /// Functions that are needed were not registered in time.
    RegistryNotInitialised { missing: Vec<String>, source: String },
}

/// The content of such an error.
#[verifier::ext_equal]
pub enum EmbeddingErrorV {
    Parse(Seq<char>, Seq<char>, Option<nat>),
    UnresolvedPlaceholder(Seq<char>, Seq<char>),
    LifecycleMismatch(Seq<char>, Seq<Seq<char>>),
    UnknownNode(Seq<char>, Seq<char>, Option<Seq<char>>),
    TypeMismatch(Seq<char>, PortType, Seq<char>, PortType, Seq<char>),
    NodeEvalPanic(Seq<char>, Seq<char>, Seq<char>),
    ResultMissing(Seq<char>, Seq<char>),
    NonePropagated(Seq<char>, Seq<char>),
    Timeout(Seq<char>, u64, u64),
    RegistryNotInitialised(Seq<Seq<char>>, Seq<char>),
}

impl View for EmbeddingError {
    type V = EmbeddingErrorV;

    open spec fn view(&self) -> EmbeddingErrorV {
        match *self {
            EmbeddingError::Parse { source, message, position } => EmbeddingErrorV::Parse(
                source@,
                message@,
                match position {
                    Some(p) => Some(p as nat),
                    None => None,
                },
            ),
            EmbeddingError::UnresolvedPlaceholder { name, source } =>
                EmbeddingErrorV::UnresolvedPlaceholder(name@, source@),
            EmbeddingError::LifecycleMismatch { source, dynamic_inputs } =>
                EmbeddingErrorV::LifecycleMismatch(source@, chars::texts(dynamic_inputs@)),
            EmbeddingError::UnknownNode { name, source, suggestion } =>
                EmbeddingErrorV::UnknownNode(
                name@,
                source@,
                match suggestion {
                    Some(s) => Some(s@),
                    None => None,
                },
            ),
            EmbeddingError::TypeMismatch { from_node, from_type, to_node, to_type, source } =>
                EmbeddingErrorV::TypeMismatch(from_node@, from_type, to_node@, to_type, source@),
            EmbeddingError::NodeEvalPanic { node_name, message, source } =>
                EmbeddingErrorV::NodeEvalPanic(node_name@, message@, source@),
            EmbeddingError::ResultMissing { output_name, source } =>
                EmbeddingErrorV::ResultMissing(output_name@, source@),
            EmbeddingError::NonePropagated { accessor, source } =>
                EmbeddingErrorV::NonePropagated(accessor@, source@),
            EmbeddingError::Timeout { source, elapsed_ms, deadline_ms } =>
                EmbeddingErrorV::Timeout(source@, elapsed_ms, deadline_ms),
            EmbeddingError::RegistryNotInitialised { missing, source } =>
                EmbeddingErrorV::RegistryNotInitialised(chars::texts(missing@), source@),
        }
    }
}

/// The text of such an error.
pub open spec fn error_text(e: EmbeddingErrorV) -> Seq<char> {
    match e {
        EmbeddingErrorV::Parse(source, message, Some(p)) => "parse error at position "@
            + chars::decimal(p) + " in '"@ + source + "': "@ + message,
        EmbeddingErrorV::Parse(source, message, None) => "parse error in '"@ + source + "': "@
            + message,
        EmbeddingErrorV::UnresolvedPlaceholder(name, source) => "unresolved placeholder '{"@ + name
            + "}' in '"@ + source + "' — no matching binding in the kernel chain"@,
        EmbeddingErrorV::LifecycleMismatch(source, inputs) => "not a const expression: '"@ + source
            + "' depends on runtime inputs ("@ + chars::joined(inputs, ", "@) + ")"@,
        EmbeddingErrorV::UnknownNode(name, source, Some(s)) => "unknown function: '"@ + name
            + "' in '"@ + source + "'\n\n  Did you mean '"@ + s + "'?"@,
        EmbeddingErrorV::UnknownNode(name, source, None) => "unknown function: '"@ + name
            + "' in '"@ + source
            + "'\n\n  This function is not registered in the Polydat function library."@,
        EmbeddingErrorV::TypeMismatch(from_node, from_type, to_node, to_type, source) =>
            "type mismatch in '"@ + source + "': cannot connect "@ + value::port_name(from_type)
            + " output of '"@ + from_node + "' to "@ + value::port_name(to_type) + " input of '"@
            + to_node + "'"@,
        EmbeddingErrorV::NodeEvalPanic(node, message, source) => "node-eval panic in '"@ + source
            + "' (node '"@ + node + "'): "@ + message,
        EmbeddingErrorV::ResultMissing(output, source) => "compilation completed for '"@ + source
            + "' but output '"@ + output + "' is not reachable — internal compiler issue"@,
        EmbeddingErrorV::NonePropagated(accessor, source) => "Value::None propagated to '"@ + source
            + "'; host called strict accessor `"@ + accessor
            + "`. Use a non-strict accessor (`try_as_*`) or surface the None to the user."@,
        EmbeddingErrorV::Timeout(source, elapsed, deadline) => "evaluation of '"@ + source
            + "' exceeded deadline: "@ + chars::decimal(elapsed as nat) + "ms elapsed, "@
            + chars::decimal(deadline as nat) + "ms budget"@,
        EmbeddingErrorV::RegistryNotInitialised(missing, source) =>
            "runtime registry missing node(s) referenced by '"@ + source + "': "@ + chars::joined(
            missing,
            ", "@,
        ),
    }
}

impl EmbeddingError {
    /// The text of the error.
    pub fn to_string(&self) -> (r: String)
        ensures
            r@ == error_text(self@),
    {
        match self {
            EmbeddingError::Parse { source, message, position } => {
                let mut out: String = match position {
                    Some(p) => {
                        let mut s: String = "parse error at position ".to_owned();
                        s.append(chars::usize_text(*p).as_str());
                        s.append(" in '");
                        s
                    },
                    None => "parse error in '".to_owned(),
                };
                out.append(source.as_str());
                out.append("': ");
                out.append(message.as_str());
                out
            },
            EmbeddingError::UnresolvedPlaceholder { name, source } => {
                let mut out: String = "unresolved placeholder '{".to_owned();
                out.append(name.as_str());
                out.append("}' in '");
                out.append(source.as_str());
                out.append("' — no matching binding in the kernel chain");
                out
            },
            EmbeddingError::LifecycleMismatch { source, dynamic_inputs } => {
                let mut out: String = "not a const expression: '".to_owned();
                out.append(source.as_str());
                out.append("' depends on runtime inputs (");
                out.append(chars::join(dynamic_inputs, ", ").as_str());
                out.append(")");
                out
            },
            EmbeddingError::UnknownNode { name, source, suggestion } => {
                let mut out: String = "unknown function: '".to_owned();
                out.append(name.as_str());
                out.append("' in '");
                out.append(source.as_str());
                match suggestion {
                    Some(s) => {
                        out.append("'\n\n  Did you mean '");
                        out.append(s.as_str());
                        out.append("'?");
                    },
                    None => {
                        out.append(
                            "'\n\n  This function is not registered in the Polydat function library.",
                        );
                    },
                }
                out
            },
            EmbeddingError::TypeMismatch { from_node, from_type, to_node, to_type, source } => {
                let mut out: String = "type mismatch in '".to_owned();
                out.append(source.as_str());
                out.append("': cannot connect ");
                out.append(from_type.name());
                out.append(" output of '");
                out.append(from_node.as_str());
                out.append("' to ");
                out.append(to_type.name());
                out.append(" input of '");
                out.append(to_node.as_str());
                out.append("'");
                out
            },
            EmbeddingError::NodeEvalPanic { node_name, message, source } => {
                let mut out: String = "node-eval panic in '".to_owned();
                out.append(source.as_str());
                out.append("' (node '");
                out.append(node_name.as_str());
                out.append("'): ");
                out.append(message.as_str());
                out
            },
            EmbeddingError::ResultMissing { output_name, source } => {
                let mut out: String = "compilation completed for '".to_owned();
                out.append(source.as_str());
                out.append("' but output '");
                out.append(output_name.as_str());
                out.append("' is not reachable — internal compiler issue");
                out
            },
            EmbeddingError::NonePropagated { accessor, source } => {
                let mut out: String = "Value::None propagated to '".to_owned();
                out.append(source.as_str());
                out.append("'; host called strict accessor `");
                out.append(*accessor);
                out.append(
                    "`. Use a non-strict accessor (`try_as_*`) or surface the None to the user.",
                );
                out
            },
            EmbeddingError::Timeout { source, elapsed_ms, deadline_ms } => {
                let mut out: String = "evaluation of '".to_owned();
                out.append(source.as_str());
                out.append("' exceeded deadline: ");
                out.append(chars::u64_text(*elapsed_ms).as_str());
                out.append("ms elapsed, ");
                out.append(chars::u64_text(*deadline_ms).as_str());
                out.append("ms budget");
                out
            },
            EmbeddingError::RegistryNotInitialised { missing, source } => {
                let mut out: String =
                    "runtime registry missing node(s) referenced by '".to_owned();
                out.append(source.as_str());
                out.append("': ");
                out.append(chars::join(missing, ", ").as_str());
                out
            },
        }
    }

    /// The text of the error.
    pub fn into_string(self) -> (r: String)
        ensures
            r@ == error_text(self@),
    {
        self.to_string()
    }
}

/// The place of the first quote from `from` on.
pub open spec fn quote_at(s: Seq<char>, from: int) -> Option<int>
    decreases s.len() - from,
{
    if from >= s.len() || from < 0 {
        None
    } else if s[from] == '\'' {
        Some(from)
    } else {
        quote_at(s, from + 1)
    }
}

/// The name in the message on an unknown function.
pub open spec fn unknown_name(msg: Seq<char>) -> Option<Seq<char>> {
    let lead = "unknown function: '"@;
    if chars::begins(msg, lead) {
        match quote_at(msg, lead.len() as int) {
            Some(end) => Some(msg.subrange(lead.len() as int, end)),
            None => None,
        }
    } else {
        None
    }
}

/// The error that the message of a failed lowering stands for.
pub open spec fn classified(source: Seq<char>, msg: Seq<char>) -> EmbeddingErrorV {
    if chars::begins(msg, "not a const expression"@) {
        EmbeddingErrorV::LifecycleMismatch(source, Seq::empty())
    } else {
        match unknown_name(msg) {
            Some(name) => EmbeddingErrorV::UnknownNode(name, source, None),
            None => if chars::occurs(msg, "type mismatch"@) {
                EmbeddingErrorV::TypeMismatch(
                    "(unknown)"@,
                    PortType::U64,
                    "(unknown)"@,
                    PortType::U64,
                    source,
                )
            } else {
                EmbeddingErrorV::Parse(source, msg, None)
            },
        }
    }
}

/// The name in the message on an unknown function.
fn find_unknown_name(msg: &str) -> (r: Option<String>)
    ensures
        match r {
            Some(n) => unknown_name(msg@) == Some(n@),
            None => unknown_name(msg@) is None,
        },
{
    if !chars::begins_with(msg, "unknown function: '") {
        return None;
    }
    let text: Vec<char> = chars::chars_of(msg);
    let lead: Vec<char> = chars::chars_of("unknown function: '");
    let start: usize = lead.len();
    let mut i: usize = start;
    while i < text.len()
        invariant
            start <= i <= text@.len(),
            text@ == msg@,
            quote_at(msg@, start as int) == quote_at(msg@, i as int),
            unknown_name(msg@) == match quote_at(msg@, start as int) {
                Some(end) => Some(msg@.subrange(start as int, end)),
                None => None,
            },
        decreases text.len() - i,
    {
        if text[i] == '\'' {
            return Some(chars::slice_string(&text, start, i));
        }
        i = i + 1;
    }
    None
}

/// The error that the message `msg` of a failed lowering of `source` stands
/// for.
pub fn classify_compile_error(source: &str, msg: String) -> (r: EmbeddingError)
    ensures
        r@ == classified(source@, msg@),
{
    if chars::begins_with(msg.as_str(), "not a const expression") {
        let none: Vec<String> = Vec::new();
        assert(chars::texts(none@) =~= Seq::<Seq<char>>::empty());
        return EmbeddingError::LifecycleMismatch {
            source: source.to_owned(),
            dynamic_inputs: none,
        };
    }
    match find_unknown_name(msg.as_str()) {
        Some(name) => {
            return EmbeddingError::UnknownNode {
                name,
                source: source.to_owned(),
                suggestion: None,
            };
        },
        None => {},
    }
    if chars::contains_text(msg.as_str(), "type mismatch") {
        return EmbeddingError::TypeMismatch {
            from_node: "(unknown)".to_owned(),
            from_type: PortType::U64,
            to_node: "(unknown)".to_owned(),
            to_type: PortType::U64,
            source: source.to_owned(),
        };
    }
    EmbeddingError::Parse { source: source.to_owned(), message: msg, position: None }
}

// ---------------------------------------------------------------------
// Constants
// ---------------------------------------------------------------------

/// The program whose output `out` is an expression.
pub open spec fn constant_program(source: Seq<char>) -> Seq<char> {
    "\nout := "@ + source
}

/// The program whose output `out` is the expression `source`.
pub fn const_program(source: &str) -> (r: String)
    ensures
        r@ == constant_program(source@),
{
    let mut out: String = "\nout := ".to_owned();
    out.append(source);
    out
}

/// What lowering and folding that program came to.
#[derive(Debug)]
pub enum Folded {
    /// The output has this value.
    Constant(Datum),
    /// The output has no value beforehand.
    Dynamic,
    /// The program could not be lowered.
    Failed(String),
    /// A node failed, with this message.
    Panicked(String),
}

/// The value of the expression `source`, from what folding its program came
/// to.
pub fn eval_const_expr(source: &str, folded: Folded) -> (r: Result<Datum, EmbeddingError>)
    ensures
        match folded {
            Folded::Constant(v) => r is Ok && r->Ok_0@ == v@,
            Folded::Dynamic => r is Err && r->Err_0@ == EmbeddingErrorV::LifecycleMismatch(
                source@,
                Seq::empty(),
            ),
            Folded::Failed(m) => r is Err && r->Err_0@ == classified(source@, m@),
            Folded::Panicked(m) => r is Err && r->Err_0@ == EmbeddingErrorV::NodeEvalPanic(
                "(unknown)"@,
                m@,
                source@,
            ),
        },
{
    match folded {
        Folded::Constant(v) => Ok(v),
        Folded::Dynamic => {
            let none: Vec<String> = Vec::new();
            assert(chars::texts(none@) =~= Seq::<Seq<char>>::empty());
            Err(
                EmbeddingError::LifecycleMismatch {
                    source: source.to_owned(),
                    dynamic_inputs: none,
                },
            )
        },
        Folded::Failed(m) => Err(classify_compile_error(source, m)),
        Folded::Panicked(m) => Err(
            EmbeddingError::NodeEvalPanic {
                node_name: "(unknown)".to_owned(),
                message: m,
                source: source.to_owned(),
            },
        ),
    }
}

// ---------------------------------------------------------------------
// Values of the host
// ---------------------------------------------------------------------

/// The type of a value.
pub open spec fn datum_port(v: DatumV) -> Option<PortType> {
    match v {
        DatumV::U64(_) => Some(PortType::U64),
        DatumV::I64(_) => Some(PortType::I64),
        DatumV::U128(_) => Some(PortType::U128),
        DatumV::I128(_) => Some(PortType::I128),
        DatumV::F64(_) => Some(PortType::F64),
        DatumV::Bool(_) => Some(PortType::Bool),
        DatumV::Str(_) => Some(PortType::Str),
        DatumV::Bytes(_) => Some(PortType::Bytes),
        DatumV::Json(_) => Some(PortType::Json),
        DatumV::Opaque(_) => Some(PortType::Ext),
        DatumV::Partition(_) => Some(PortType::Ext),
        DatumV::Partitions(_) => Some(PortType::Ext),
        DatumV::Handle(_) => Some(PortType::Handle),
        _ => None,
    }
}

/// The type of `v`, where it is one of the plain ones.
pub fn port_type(v: &Datum) -> (r: Option<PortType>)
    ensures
        r == datum_port(v@),
{
    match v {
        Datum::U64(_) => Some(PortType::U64),
        Datum::I64(_) => Some(PortType::I64),
        Datum::U128(_) => Some(PortType::U128),
        Datum::I128(_) => Some(PortType::I128),
        Datum::F64(_) => Some(PortType::F64),
        Datum::Bool(_) => Some(PortType::Bool),
        Datum::Str(_) => Some(PortType::Str),
        Datum::Bytes(_) => Some(PortType::Bytes),
        Datum::Json(_) => Some(PortType::Json),
        Datum::Ext(_) => Some(PortType::Ext),
        Datum::Handle(_) => Some(PortType::Handle),
        _ => None,
    }
}

/// A value, and the port type that its host gives it. That of a plain value
/// is known without.
#[derive(Debug, PartialEq)]
pub struct Typed {
    pub value: Datum,
    pub port: PortType,
}

/// The content of a value with its port type.
#[verifier::ext_equal]
pub struct TypedV {
    pub value: DatumV,
    pub port: PortType,
}

impl View for Typed {
    type V = TypedV;

    open spec fn view(&self) -> TypedV {
        TypedV { value: self.value@, port: self.port }
    }
}

/// The port type of a value: its own where it is a plain one, else the one
/// that its host gives it.
pub open spec fn port_of(v: TypedV) -> PortType {
    match datum_port(v.value) {
        Some(t) => t,
        None => v.port,
    }
}

impl Typed {
    /// The port type of the value.
    pub fn port_type(&self) -> (r: PortType)
        ensures
            r == port_of(self@),
    {
        match port_type(&self.value) {
            Some(t) => t,
            None => self.port,
        }
    }
}

/// The error where there is no value.
pub open spec fn absent(accessor: Seq<char>) -> EmbeddingErrorV {
    EmbeddingErrorV::NonePropagated(accessor, "<typed-embedding result>"@)
}

/// The error where a value has another type.
pub open spec fn mismatch(from: PortType, to: PortType, source: Seq<char>) -> EmbeddingErrorV {
    EmbeddingErrorV::TypeMismatch("<expression-output>"@, from, "<host-target>"@, to, source)
}

/// The error where a value has another type.
fn build_mismatch(from: PortType, to: PortType, source: &str) -> (r: EmbeddingError)
    ensures
        r@ == mismatch(from, to, source@),
{
    EmbeddingError::TypeMismatch {
        from_node: "<expression-output>".to_owned(),
        from_type: from,
        to_node: "<host-target>".to_owned(),
        to_type: to,
        source: source.to_owned(),
    }
}

/// The error where there is no value.
fn build_absent(accessor: &'static str) -> (r: EmbeddingError)
    ensures
        r@ == absent(accessor@),
{
    EmbeddingError::NonePropagated {
        accessor,
        source: "<typed-embedding result>".to_owned(),
    }
}

/// A type of the host.
pub trait HostType: Sized {
    /// The port type that stands for it.
    spec fn port() -> PortType;

    /// What it is shown as.
    spec fn shown(self) -> DatumV;

    /// What a value is read to. `text` is how a double prints.
    spec fn read(v: TypedV, text: Seq<char>) -> Result<DatumV, EmbeddingErrorV>;

    /// The port type that stands for it.
    fn target_port_type() -> (r: PortType)
        ensures
            r == Self::port(),
    ;

    /// What `v` is read to. `text` is how `v` prints where it is a double.
    fn from_value(v: Typed, text: &str) -> (r: Result<Self, EmbeddingError>)
        ensures
            match r {
                Ok(x) => Self::read(v@, text@) == Ok::<DatumV, EmbeddingErrorV>(x.shown()),
                Err(e) => Self::read(v@, text@) == Err::<DatumV, EmbeddingErrorV>(e@),
            },
    ;
}

impl HostType for bool {
    open spec fn port() -> PortType {
        PortType::Bool
    }

    open spec fn shown(self) -> DatumV {
        DatumV::Bool(self)
    }

    open spec fn read(v: TypedV, text: Seq<char>) -> Result<DatumV, EmbeddingErrorV> {
        match v.value {
            DatumV::Bool(b) => Ok(DatumV::Bool(b)),
            DatumV::U64(n) => Ok(DatumV::Bool(n != 0)),
            DatumV::Nothing => Err(absent("HostType::<bool>::from_value"@)),
            _ => Err(
                mismatch(port_of(v), PortType::Bool, "<typed-embedding result>"@),
            ),
        }
    }

    fn target_port_type() -> (r: PortType) {
        PortType::Bool
    }

    fn from_value(v: Typed, text: &str) -> (r: Result<bool, EmbeddingError>) {
        let from: PortType = v.port_type();
        match v.value {
            Datum::Bool(b) => Ok(b),
            Datum::U64(n) => Ok(n != 0),
            Datum::Nothing => Err(build_absent("HostType::<bool>::from_value")),
            _ => Err(build_mismatch(from, PortType::Bool, "<typed-embedding result>")),
        }
    }
}

impl HostType for u64 {
    open spec fn port() -> PortType {
        PortType::U64
    }

    open spec fn shown(self) -> DatumV {
        DatumV::U64(self)
    }

    open spec fn read(v: TypedV, text: Seq<char>) -> Result<DatumV, EmbeddingErrorV> {
        match v.value {
            DatumV::U64(n) => Ok(DatumV::U64(n)),
            DatumV::Nothing => Err(absent("HostType::<u64>::from_value"@)),
            _ => Err(
                mismatch(port_of(v), PortType::U64, "<typed-embedding result>"@),
            ),
        }
    }

    fn target_port_type() -> (r: PortType) {
        PortType::U64
    }

    fn from_value(v: Typed, text: &str) -> (r: Result<u64, EmbeddingError>) {
        let from: PortType = v.port_type();
        match v.value {
            Datum::U64(n) => Ok(n),
            Datum::Nothing => Err(build_absent("HostType::<u64>::from_value")),
            _ => Err(build_mismatch(from, PortType::U64, "<typed-embedding result>")),
        }
    }
}

impl HostType for Float64 {
    open spec fn port() -> PortType {
        PortType::F64
    }

    open spec fn shown(self) -> DatumV {
        DatumV::F64(self)
    }

    open spec fn read(v: TypedV, text: Seq<char>) -> Result<DatumV, EmbeddingErrorV> {
        match v.value {
            DatumV::F64(x) => Ok(DatumV::F64(x)),
            DatumV::U64(n) => Ok(DatumV::F64(Float64 { bits: float::int_bits(n as int) })),
            DatumV::Nothing => Err(absent("HostType::<f64>::from_value"@)),
            _ => Err(
                mismatch(port_of(v), PortType::F64, "<typed-embedding result>"@),
            ),
        }
    }

    fn target_port_type() -> (r: PortType) {
        PortType::F64
    }

    fn from_value(v: Typed, text: &str) -> (r: Result<Float64, EmbeddingError>) {
        let from: PortType = v.port_type();
        match v.value {
            Datum::F64(x) => Ok(x),
            Datum::U64(n) => Ok(Float64::from_u64(n)),
            Datum::Nothing => Err(build_absent("HostType::<f64>::from_value")),
            _ => Err(build_mismatch(from, PortType::F64, "<typed-embedding result>")),
        }
    }
}

impl HostType for String {
    open spec fn port() -> PortType {
        PortType::Str
    }

    open spec fn shown(self) -> DatumV {
        DatumV::Str(self@)
    }

    open spec fn read(v: TypedV, text: Seq<char>) -> Result<DatumV, EmbeddingErrorV> {
        match v.value {
            DatumV::Str(s) => Ok(DatumV::Str(s)),
            DatumV::U64(n) => Ok(DatumV::Str(chars::decimal(n as nat))),
            DatumV::F64(_) => Ok(DatumV::Str(text)),
            DatumV::Bool(b) => Ok(
                DatumV::Str(
                    if b {
                        "true"@
                    } else {
                        "false"@
                    },
                ),
            ),
            DatumV::Nothing => Err(absent("HostType::<String>::from_value"@)),
            _ => Err(
                mismatch(port_of(v), PortType::Str, "<typed-embedding result>"@),
            ),
        }
    }

    fn target_port_type() -> (r: PortType) {
        PortType::Str
    }

    fn from_value(v: Typed, text: &str) -> (r: Result<String, EmbeddingError>) {
        let from: PortType = v.port_type();
        match v.value {
            Datum::Str(s) => Ok(s),
            Datum::U64(n) => Ok(chars::u64_text(n)),
            Datum::F64(_) => Ok(text.to_owned()),
            Datum::Bool(b) => Ok(
                if b {
                    "true".to_owned()
                } else {
                    "false".to_owned()
                },
            ),
            Datum::Nothing => Err(build_absent("HostType::<String>::from_value")),
            _ => Err(build_mismatch(from, PortType::Str, "<typed-embedding result>")),
        }
    }
}

/// Whether turning a value of one type into one of another keeps all of it:
/// widening, and anything as text.
pub open spec fn lossless(from: PortType, to: PortType) -> bool {
    to == PortType::Str || match from {
        PortType::U32 => to == PortType::U64 || to == PortType::F64,
        PortType::I32 => to == PortType::I64 || to == PortType::F64,
        PortType::I64 => to == PortType::F64,
        PortType::F32 => to == PortType::F64,
        PortType::Bool => to == PortType::U64,
        PortType::U64 => to == PortType::F64,
        _ => false,
    }
}

/// Whether turning a value of the type `from` into one of the type `to`
/// keeps all of it.
pub fn is_lossless_adapter(from: PortType, to: PortType) -> (r: bool)
    ensures
        r == lossless(from, to),
{
    match (from, to) {
        (_, PortType::Str) => true,
        (PortType::U32, PortType::U64) => true,
        (PortType::U32, PortType::F64) => true,
        (PortType::I32, PortType::I64) => true,
        (PortType::I32, PortType::F64) => true,
        (PortType::I64, PortType::F64) => true,
        (PortType::F32, PortType::F64) => true,
        (PortType::Bool, PortType::U64) => true,
        (PortType::U64, PortType::F64) => true,
        _ => false,
    }
}

/// A value that a host takes, of what an expression came to. `adapted` is
/// what an adapter made of it, where there is one.
pub open spec fn taken<T: HostType>(
    source: Seq<char>,
    v: TypedV,
    adapted: Option<TypedV>,
    strict: bool,
    text: Seq<char>,
) -> Result<DatumV, EmbeddingErrorV> {
    let from = port_of(v);
    if from == T::port() {
        T::read(v, text)
    } else if strict && !lossless(from, T::port()) {
        Err(mismatch(from, T::port(), source))
    } else {
        match adapted {
            Some(a) => T::read(a, text),
            None => Err(mismatch(from, T::port(), source)),
        }
    }
}

/// Takes a value for the host.
fn take_value<T: HostType>(
    source: &str,
    v: Typed,
    adapted: Option<Typed>,
    strict: bool,
    text: &str,
) -> (r: Result<T, EmbeddingError>)
    ensures
        match r {
            Ok(x) => taken::<T>(source@, v@, maybe_typed(adapted), strict, text@) == Ok::<
                DatumV,
                EmbeddingErrorV,
            >(x.shown()),
            Err(e) => taken::<T>(source@, v@, maybe_typed(adapted), strict, text@) == Err::<
                DatumV,
                EmbeddingErrorV,
            >(e@),
        },
{
    let to: PortType = T::target_port_type();
    let from: PortType = v.port_type();
    if from == to {
        return T::from_value(v, text);
    }
    if strict && !is_lossless_adapter(from, to) {
        return Err(build_mismatch(from, to, source));
    }
    match adapted {
        Some(a) => T::from_value(a, text),
        None => Err(build_mismatch(from, to, source)),
    }
}

/// The content of a value that may be missing.
pub open spec fn maybe_typed(v: Option<Typed>) -> Option<TypedV> {
    match v {
        Some(x) => Some(x@),
        None => None,
    }
}

/// Takes what the expression `source` came to for the host. `adapted` is
/// what an adapter to the type of the host made of it, where there is one,
/// and `text` how a double prints.
pub fn eval_const_expr_typed<T: HostType>(
    source: &str,
    outcome: Result<Typed, EmbeddingError>,
    adapted: Option<Typed>,
    text: &str,
) -> (r: Result<T, EmbeddingError>)
    ensures
        match outcome {
            Err(e) => r is Err && r->Err_0@ == e@,
            Ok(v) => match r {
                Ok(x) => taken::<T>(source@, v@, maybe_typed(adapted), false, text@) == Ok::<
                    DatumV,
                    EmbeddingErrorV,
                >(x.shown()),
                Err(e) => taken::<T>(source@, v@, maybe_typed(adapted), false, text@) == Err::<
                    DatumV,
                    EmbeddingErrorV,
                >(e@),
            },
        },
{
    match outcome {
        Err(e) => Err(e),
        Ok(v) => take_value::<T>(source, v, adapted, false, text),
    }
}

/// Takes what the expression `source` came to for the host, where nothing
/// of it is lost.
pub fn eval_const_expr_typed_strict<T: HostType>(
    source: &str,
    outcome: Result<Typed, EmbeddingError>,
    adapted: Option<Typed>,
    text: &str,
) -> (r: Result<T, EmbeddingError>)
    ensures
        match outcome {
            Err(e) => r is Err && r->Err_0@ == e@,
            Ok(v) => match r {
                Ok(x) => taken::<T>(source@, v@, maybe_typed(adapted), true, text@) == Ok::<
                    DatumV,
                    EmbeddingErrorV,
                >(x.shown()),
                Err(e) => taken::<T>(source@, v@, maybe_typed(adapted), true, text@) == Err::<
                    DatumV,
                    EmbeddingErrorV,
                >(e@),
            },
        },
{
    match outcome {
        Err(e) => Err(e),
        Ok(v) => take_value::<T>(source, v, adapted, true, text),
    }
}

/// Takes what a text with placeholders came to for the host. `interpolated`
/// is the text with its placeholders filled, or why they could not be.
pub fn eval_kernel_bound_typed<T: HostType>(
    interpolated: Result<String, EmbeddingError>,
    outcome: Result<Typed, EmbeddingError>,
    adapted: Option<Typed>,
    text: &str,
) -> (r: Result<T, EmbeddingError>)
    ensures
        match (interpolated, outcome) {
            (Err(e), _) => r is Err && r->Err_0@ == e@,
            (Ok(_), Err(e)) => r is Err && r->Err_0@ == e@,
            (Ok(s), Ok(v)) => match r {
                Ok(x) => taken::<T>(s@, v@, maybe_typed(adapted), false, text@) == Ok::<
                    DatumV,
                    EmbeddingErrorV,
                >(x.shown()),
                Err(e) => taken::<T>(s@, v@, maybe_typed(adapted), false, text@) == Err::<
                    DatumV,
                    EmbeddingErrorV,
                >(e@),
            },
        },
{
    match interpolated {
        Err(e) => Err(e),
        Ok(s) => eval_const_expr_typed::<T>(s.as_str(), outcome, adapted, text),
    }
}

/// Takes what a text with placeholders came to for the host, where nothing
/// of it is lost.
pub fn eval_kernel_bound_typed_strict<T: HostType>(
    interpolated: Result<String, EmbeddingError>,
    outcome: Result<Typed, EmbeddingError>,
    adapted: Option<Typed>,
    text: &str,
) -> (r: Result<T, EmbeddingError>)
    ensures
        match (interpolated, outcome) {
            (Err(e), _) => r is Err && r->Err_0@ == e@,
            (Ok(_), Err(e)) => r is Err && r->Err_0@ == e@,
            (Ok(s), Ok(v)) => match r {
                Ok(x) => taken::<T>(s@, v@, maybe_typed(adapted), true, text@) == Ok::<
                    DatumV,
                    EmbeddingErrorV,
                >(x.shown()),
                Err(e) => taken::<T>(s@, v@, maybe_typed(adapted), true, text@) == Err::<
                    DatumV,
                    EmbeddingErrorV,
                >(e@),
            },
        },
{
    match interpolated {
        Err(e) => Err(e),
        Ok(s) => eval_const_expr_typed_strict::<T>(s.as_str(), outcome, adapted, text),
    }
}

/// What a host takes strictly, it also takes otherwise, and as the same.
pub proof fn law_strict_within<T: HostType>(
    source: Seq<char>,
    v: TypedV,
    adapted: Option<TypedV>,
    text: Seq<char>,
)
    requires
        taken::<T>(source, v, adapted, true, text) is Ok,
    ensures
        taken::<T>(source, v, adapted, false, text) == taken::<T>(source, v, adapted, true, text),
{
}

/// A value that would lose something is refused strictly, whatever an
/// adapter makes of it.
pub proof fn law_strict_refuses_loss<T: HostType>(
    source: Seq<char>,
    v: TypedV,
    adapted: Option<TypedV>,
    text: Seq<char>,
)
    requires
        port_of(v) != T::port(),
        !lossless(port_of(v), T::port()),
    ensures
        taken::<T>(source, v, adapted, true, text) == Err::<DatumV, EmbeddingErrorV>(
            mismatch(port_of(v), T::port(), source),
        ),
{
}

} // verus!
