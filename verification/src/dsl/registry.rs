//! The function registry: signatures of the functions a program may call.
//!
//! Each signature gives a function's name, its category, its parameters in
//! call order and what its output is. The list of signatures is handed in
//! by whoever links the node modules.
use crate::chars;
use crate::dsl::const_constraints::ConstConstraint;
use crate::value::PortType;
use vstd::prelude::*;

verus! {

// ---------------------------------------------------------------------
// Categories
// ---------------------------------------------------------------------

/// What a function is for.
#[derive(Clone, Copy, Debug, PartialEq, Eq, Structural)]
pub enum FuncCategory {
    /// Deterministic hashing.
    Hashing,
    /// Integer arithmetic with constant parameters.
    Arithmetic,
    /// Comparison and selection.
    Comparison,
    /// Operations on any number of operands.
    Variadic,
    /// Conversions between types.
    Conversions,
    /// Statistical distributions.
    Distributions,
    /// Dates and times.
    Datetime,
    /// Encodings of text and bytes.
    Encoding,
    /// Interpolation and range mapping.
    Interpolation,
    /// Mathematical functions.
    Math,
    /// Coins, selection, conditionals.
    Probability,
    /// Weighted selection.
    Weighted,
    /// Formatting of strings.
    Formatting,
    /// Generation of strings.
    String,
    /// JSON documents.
    Json,
    /// Byte buffers.
    ByteBuffers,
    /// Digests.
    Digest,
    /// Coherent noise.
    Noise,
    /// Regular expressions.
    Regex,
    /// Bijective permutations and shuffles.
    Permutation,
    /// Names, places, codes.
    RealData,
    /// Clocks and counters.
    Context,
    /// Debugging and introspection.
    Diagnostic,
    /// Data out of files.
    Data,
}

/// The name of a category in listings.
pub open spec fn category_name(c: FuncCategory) -> Seq<char> {
    match c {
        FuncCategory::Hashing => "Hashing"@,
        FuncCategory::Arithmetic => "Arithmetic"@,
        FuncCategory::Comparison => "Comparison"@,
        FuncCategory::Variadic => "Variadic"@,
        FuncCategory::Conversions => "Conversions"@,
        FuncCategory::Distributions => "Distributions"@,
        FuncCategory::Datetime => "Datetime"@,
        FuncCategory::Encoding => "Encoding"@,
        FuncCategory::Interpolation => "Interpolation"@,
        FuncCategory::Math => "Math"@,
        FuncCategory::Probability => "Probability"@,
        FuncCategory::Weighted => "Weighted"@,
        FuncCategory::Formatting => "Formatting"@,
        FuncCategory::String => "String"@,
        FuncCategory::Json => "JSON"@,
        FuncCategory::ByteBuffers => "Byte Buffers"@,
        FuncCategory::Digest => "Digest"@,
        FuncCategory::Noise => "Noise"@,
        FuncCategory::Regex => "Regex"@,
        FuncCategory::Permutation => "Permutation"@,
        FuncCategory::RealData => "Real Data"@,
        FuncCategory::Context => "Context"@,
        FuncCategory::Diagnostic => "Diagnostic"@,
        FuncCategory::Data => "Data"@,
    }
}

/// The category that a small, trimmed word names.
pub open spec fn category_of_word(w: Seq<char>) -> Option<FuncCategory> {
    if w == "hashing"@ {
        Some(FuncCategory::Hashing)
    } else if w == "arithmetic"@ {
        Some(FuncCategory::Arithmetic)
    } else if w == "comparison"@ || w == "compare"@ {
        Some(FuncCategory::Comparison)
    } else if w == "variadic"@ {
        Some(FuncCategory::Variadic)
    } else if w == "conversions"@ || w == "conversion"@ {
        Some(FuncCategory::Conversions)
    } else if w == "distributions"@ || w == "distribution"@ {
        Some(FuncCategory::Distributions)
    } else if w == "datetime"@ || w == "date"@ || w == "time"@ {
        Some(FuncCategory::Datetime)
    } else if w == "encoding"@ {
        Some(FuncCategory::Encoding)
    } else if w == "interpolation"@ || w == "lerp"@ {
        Some(FuncCategory::Interpolation)
    } else if w == "math"@ || w == "trig"@ || w == "trigonometry"@ {
        Some(FuncCategory::Math)
    } else if w == "probability"@ {
        Some(FuncCategory::Probability)
    } else if w == "weighted"@ {
        Some(FuncCategory::Weighted)
    } else if w == "formatting"@ || w == "format"@ || w == "printf"@ {
        Some(FuncCategory::Formatting)
    } else if w == "string"@ || w == "strings"@ {
        Some(FuncCategory::String)
    } else if w == "json"@ {
        Some(FuncCategory::Json)
    } else if w == "byte buffers"@ || w == "bytebuffers"@ || w == "bytes"@ {
        Some(FuncCategory::ByteBuffers)
    } else if w == "digest"@ {
        Some(FuncCategory::Digest)
    } else if w == "noise"@ {
        Some(FuncCategory::Noise)
    } else if w == "regex"@ {
        Some(FuncCategory::Regex)
    } else if w == "permutation"@ || w == "shuffle"@ {
        Some(FuncCategory::Permutation)
    } else if w == "real data"@ || w == "realdata"@ || w == "realer"@ {
        Some(FuncCategory::RealData)
    } else if w == "context"@ {
        Some(FuncCategory::Context)
    } else if w == "diagnostic"@ || w == "diagnostics"@ || w == "debug"@ {
        Some(FuncCategory::Diagnostic)
    } else if w == "data"@ || w == "datafile"@ || w == "csv"@ || w == "jsonl"@ {
        Some(FuncCategory::Data)
    } else {
        None
    }
}

/// The category that a text names, in either case and with white space
/// around it.
pub open spec fn category_of(s: Seq<char>) -> Option<FuncCategory> {
    category_of_word(chars::lowered(chars::trim(s)))
}

/// The categories in the order of listings.
pub open spec fn categories() -> Seq<FuncCategory> {
    seq![
        FuncCategory::Hashing,
        FuncCategory::Arithmetic,
        FuncCategory::Comparison,
        FuncCategory::Variadic,
        FuncCategory::Conversions,
        FuncCategory::Distributions,
        FuncCategory::Datetime,
        FuncCategory::Encoding,
        FuncCategory::Interpolation,
        FuncCategory::Math,
        FuncCategory::Probability,
        FuncCategory::Weighted,
        FuncCategory::Formatting,
        FuncCategory::String,
        FuncCategory::Json,
        FuncCategory::ByteBuffers,
        FuncCategory::Digest,
        FuncCategory::Noise,
        FuncCategory::Regex,
        FuncCategory::Permutation,
        FuncCategory::RealData,
        FuncCategory::Context,
        FuncCategory::Diagnostic,
        FuncCategory::Data,
    ]
}

impl FuncCategory {
    /// The name of the category in listings.
    pub fn display_name(&self) -> (r: &'static str)
        ensures
            r@ == category_name(*self),
    {
        match self {
            FuncCategory::Hashing => "Hashing",
            FuncCategory::Arithmetic => "Arithmetic",
            FuncCategory::Comparison => "Comparison",
            FuncCategory::Variadic => "Variadic",
            FuncCategory::Conversions => "Conversions",
            FuncCategory::Distributions => "Distributions",
            FuncCategory::Datetime => "Datetime",
            FuncCategory::Encoding => "Encoding",
            FuncCategory::Interpolation => "Interpolation",
            FuncCategory::Math => "Math",
            FuncCategory::Probability => "Probability",
            FuncCategory::Weighted => "Weighted",
            FuncCategory::Formatting => "Formatting",
            FuncCategory::String => "String",
            FuncCategory::Json => "JSON",
            FuncCategory::ByteBuffers => "Byte Buffers",
            FuncCategory::Digest => "Digest",
            FuncCategory::Noise => "Noise",
            FuncCategory::Regex => "Regex",
            FuncCategory::Permutation => "Permutation",
            FuncCategory::RealData => "Real Data",
            FuncCategory::Context => "Context",
            FuncCategory::Diagnostic => "Diagnostic",
            FuncCategory::Data => "Data",
        }
    }

    /// The category that `s` names.
    pub fn parse(s: &str) -> (r: Option<FuncCategory>)
        ensures
            r == category_of(s@),
    {
        let lowered: Vec<char> = chars::lower_chars(&chars::trim_chars(&chars::chars_of(s)));
        let text: String = chars::string_of(&lowered);
        let w: &str = text.as_str();
        if *w == *"hashing" {
            Some(FuncCategory::Hashing)
        } else if *w == *"arithmetic" {
            Some(FuncCategory::Arithmetic)
        } else if *w == *"comparison" || *w == *"compare" {
            Some(FuncCategory::Comparison)
        } else if *w == *"variadic" {
            Some(FuncCategory::Variadic)
        } else if *w == *"conversions" || *w == *"conversion" {
            Some(FuncCategory::Conversions)
        } else if *w == *"distributions" || *w == *"distribution" {
            Some(FuncCategory::Distributions)
        } else if *w == *"datetime" || *w == *"date" || *w == *"time" {
            Some(FuncCategory::Datetime)
        } else if *w == *"encoding" {
            Some(FuncCategory::Encoding)
        } else if *w == *"interpolation" || *w == *"lerp" {
            Some(FuncCategory::Interpolation)
        } else if *w == *"math" || *w == *"trig" || *w == *"trigonometry" {
            Some(FuncCategory::Math)
        } else if *w == *"probability" {
            Some(FuncCategory::Probability)
        } else if *w == *"weighted" {
            Some(FuncCategory::Weighted)
        } else if *w == *"formatting" || *w == *"format" || *w == *"printf" {
            Some(FuncCategory::Formatting)
        } else if *w == *"string" || *w == *"strings" {
            Some(FuncCategory::String)
        } else if *w == *"json" {
            Some(FuncCategory::Json)
        } else if *w == *"byte buffers" || *w == *"bytebuffers" || *w == *"bytes" {
            Some(FuncCategory::ByteBuffers)
        } else if *w == *"digest" {
            Some(FuncCategory::Digest)
        } else if *w == *"noise" {
            Some(FuncCategory::Noise)
        } else if *w == *"regex" {
            Some(FuncCategory::Regex)
        } else if *w == *"permutation" || *w == *"shuffle" {
            Some(FuncCategory::Permutation)
        } else if *w == *"real data" || *w == *"realdata" || *w == *"realer" {
            Some(FuncCategory::RealData)
        } else if *w == *"context" {
            Some(FuncCategory::Context)
        } else if *w == *"diagnostic" || *w == *"diagnostics" || *w == *"debug" {
            Some(FuncCategory::Diagnostic)
        } else if *w == *"data" || *w == *"datafile" || *w == *"csv" || *w == *"jsonl" {
            Some(FuncCategory::Data)
        } else {
            None
        }
    }

    /// The categories in the order of listings.
    pub fn display_order() -> (r: Vec<FuncCategory>)
        ensures
            r@ == categories(),
    {
        vec![
            FuncCategory::Hashing,
            FuncCategory::Arithmetic,
            FuncCategory::Comparison,
            FuncCategory::Variadic,
            FuncCategory::Conversions,
            FuncCategory::Distributions,
            FuncCategory::Datetime,
            FuncCategory::Encoding,
            FuncCategory::Interpolation,
            FuncCategory::Math,
            FuncCategory::Probability,
            FuncCategory::Weighted,
            FuncCategory::Formatting,
            FuncCategory::String,
            FuncCategory::Json,
            FuncCategory::ByteBuffers,
            FuncCategory::Digest,
            FuncCategory::Noise,
            FuncCategory::Regex,
            FuncCategory::Permutation,
            FuncCategory::RealData,
            FuncCategory::Context,
            FuncCategory::Diagnostic,
            FuncCategory::Data,
        ]
    }
}

/// The name of a category names that category.
pub proof fn law_category_round_trip(c: FuncCategory)
    ensures
        category_of(category_name(c)) == Some(c),
{
    reveal_strlit("arithmetic");
    reveal_strlit("byte buffers");
    reveal_strlit("bytebuffers");
    reveal_strlit("bytes");
    reveal_strlit("compare");
    reveal_strlit("comparison");
    reveal_strlit("context");
    reveal_strlit("conversion");
    reveal_strlit("conversions");
    reveal_strlit("csv");
    reveal_strlit("data");
    reveal_strlit("datafile");
    reveal_strlit("date");
    reveal_strlit("datetime");
    reveal_strlit("debug");
    reveal_strlit("diagnostic");
    reveal_strlit("diagnostics");
    reveal_strlit("digest");
    reveal_strlit("distribution");
    reveal_strlit("distributions");
    reveal_strlit("encoding");
    reveal_strlit("format");
    reveal_strlit("formatting");
    reveal_strlit("hashing");
    reveal_strlit("interpolation");
    reveal_strlit("json");
    reveal_strlit("jsonl");
    reveal_strlit("lerp");
    reveal_strlit("math");
    reveal_strlit("noise");
    reveal_strlit("permutation");
    reveal_strlit("printf");
    reveal_strlit("probability");
    reveal_strlit("real data");
    reveal_strlit("realdata");
    reveal_strlit("realer");
    reveal_strlit("regex");
    reveal_strlit("shuffle");
    reveal_strlit("string");
    reveal_strlit("strings");
    reveal_strlit("time");
    reveal_strlit("trig");
    reveal_strlit("trigonometry");
    reveal_strlit("variadic");
    reveal_strlit("weighted");
    reveal_strlit("Hashing");
    reveal_strlit("Arithmetic");
    reveal_strlit("Comparison");
    reveal_strlit("Variadic");
    reveal_strlit("Conversions");
    reveal_strlit("Distributions");
    reveal_strlit("Datetime");
    reveal_strlit("Encoding");
    reveal_strlit("Interpolation");
    reveal_strlit("Math");
    reveal_strlit("Probability");
    reveal_strlit("Weighted");
    reveal_strlit("Formatting");
    reveal_strlit("String");
    reveal_strlit("JSON");
    reveal_strlit("Byte Buffers");
    reveal_strlit("Digest");
    reveal_strlit("Noise");
    reveal_strlit("Regex");
    reveal_strlit("Permutation");
    reveal_strlit("Real Data");
    reveal_strlit("Context");
    reveal_strlit("Diagnostic");
    reveal_strlit("Data");
    let name = category_name(c);
    let low = chars::lowered(name);
    assert(chars::trim(name) =~= name);
    match c {
        FuncCategory::Hashing => {
            assert(low =~= "hashing"@);
        },
        FuncCategory::Arithmetic => {
            assert(low =~= "arithmetic"@);
        },
        FuncCategory::Comparison => {
            assert(low =~= "comparison"@);
            assert(low[0] != "arithmetic"@[0]);
        },
        FuncCategory::Variadic => {
            assert(low =~= "variadic"@);
        },
        FuncCategory::Conversions => {
            assert(low =~= "conversions"@);
        },
        FuncCategory::Distributions => {
            assert(low =~= "distributions"@);
        },
        FuncCategory::Datetime => {
            assert(low =~= "datetime"@);
            assert(low[0] != "variadic"@[0]);
        },
        FuncCategory::Encoding => {
            assert(low =~= "encoding"@);
            assert(low[0] != "variadic"@[0]);
            assert(low[0] != "datetime"@[0]);
        },
        FuncCategory::Interpolation => {
            assert(low =~= "interpolation"@);
            assert(low[0] != "distributions"@[0]);
        },
        FuncCategory::Math => {
            assert(low =~= "math"@);
            assert(low[0] != "date"@[0]);
            assert(low[0] != "time"@[0]);
            assert(low[0] != "lerp"@[0]);
        },
        FuncCategory::Probability => {
            assert(low =~= "probability"@);
            assert(low[0] != "conversions"@[0]);
        },
        FuncCategory::Weighted => {
            assert(low =~= "weighted"@);
            assert(low[0] != "variadic"@[0]);
            assert(low[0] != "datetime"@[0]);
            assert(low[0] != "encoding"@[0]);
        },
        FuncCategory::Formatting => {
            assert(low =~= "formatting"@);
            assert(low[0] != "arithmetic"@[0]);
            assert(low[0] != "comparison"@[0]);
            assert(low[0] != "conversion"@[0]);
        },
        FuncCategory::String => {
            assert(low =~= "string"@);
            assert(low[0] != "format"@[0]);
            assert(low[0] != "printf"@[0]);
        },
        FuncCategory::Json => {
            assert(low =~= "json"@);
            assert(low[0] != "date"@[0]);
            assert(low[0] != "time"@[0]);
            assert(low[0] != "lerp"@[0]);
            assert(low[0] != "math"@[0]);
            assert(low[0] != "trig"@[0]);
        },
        FuncCategory::ByteBuffers => {
            assert(low =~= "byte buffers"@);
            assert(low[0] != "distribution"@[0]);
            assert(low[0] != "trigonometry"@[0]);
        },
        FuncCategory::Digest => {
            assert(low =~= "digest"@);
            assert(low[0] != "format"@[0]);
            assert(low[0] != "printf"@[0]);
            assert(low[0] != "string"@[0]);
        },
        FuncCategory::Noise => {
            assert(low =~= "noise"@);
            assert(low[0] != "bytes"@[0]);
        },
        FuncCategory::Regex => {
            assert(low =~= "regex"@);
            assert(low[0] != "bytes"@[0]);
            assert(low[0] != "noise"@[0]);
        },
        FuncCategory::Permutation => {
            assert(low =~= "permutation"@);
            assert(low[0] != "conversions"@[0]);
            assert(low[1] != "probability"@[1]);
            assert(low[0] != "bytebuffers"@[0]);
        },
        FuncCategory::RealData => {
            assert(low =~= "real data"@);
        },
        FuncCategory::Context => {
            assert(low =~= "context"@);
            assert(low[0] != "hashing"@[0]);
            assert(low[2] != "compare"@[2]);
            assert(low[0] != "strings"@[0]);
            assert(low[0] != "shuffle"@[0]);
        },
        FuncCategory::Diagnostic => {
            assert(low =~= "diagnostic"@);
            assert(low[0] != "arithmetic"@[0]);
            assert(low[0] != "comparison"@[0]);
            assert(low[0] != "conversion"@[0]);
            assert(low[0] != "formatting"@[0]);
        },
        FuncCategory::Data => {
            assert(low =~= "data"@);
            assert(low[3] != "date"@[3]);
            assert(low[0] != "time"@[0]);
            assert(low[0] != "lerp"@[0]);
            assert(low[0] != "math"@[0]);
            assert(low[0] != "trig"@[0]);
            assert(low[0] != "json"@[0]);
        },
    }
}

// ---------------------------------------------------------------------
// Signatures
// ---------------------------------------------------------------------

/// Whether a parameter is a wire or a constant, and which constant.
#[derive(Clone, Copy, Debug, PartialEq, Eq, Structural)]
pub enum SlotType {
    Wire,
    ConstU64,
    ConstF64,
    ConstStr,
    ConstVecU64,
    ConstVecF64,
}

impl SlotType {
    /// Whether this is a wire.
    pub fn is_wire(self) -> (r: bool)
        ensures
            r == (self is Wire),
    {
        match self {
            SlotType::Wire => true,
            _ => false,
        }
    }

    /// Whether this is a constant.
    pub fn is_const(self) -> (r: bool)
        ensures
            r == !(self is Wire),
    {
        !self.is_wire()
    }
}

/// One parameter of a function.
#[derive(Clone, Copy, Debug)]
pub struct ParamSpec {
    /// The name in messages and listings.
    pub name: &'static str,
    /// Wire or constant.
    pub slot_type: SlotType,
    /// Whether the parameter has to be there.
    pub required: bool,
    /// A value for documentation.
    pub example: &'static str,
    /// The rule that a constant has to satisfy.
    pub constraint: Option<ConstConstraint>,
}

impl ParamSpec {
    /// The parameter with a rule.
    pub fn with_constraint(self, c: ConstConstraint) -> (r: ParamSpec)
        ensures
            r == (ParamSpec { constraint: Some(c), ..self }),
    {
        ParamSpec { constraint: Some(c), ..self }
    }
}

/// Which part of a parameter list repeats.
#[derive(Clone, Copy, Debug)]
pub enum Arity {
    /// None.
    Fixed,
    /// The trailing wires.
    VariadicWires { min_wires: usize },
    /// The trailing constants.
    VariadicConsts { min_consts: usize },
    /// A group of parameters.
    VariadicGroup { group: &'static [SlotType], min_repeats: usize },
}

/// What the output of a function is.
#[derive(Clone, Copy, Debug, PartialEq, Eq, Structural)]
pub enum OutputType {
    /// What the node declares.
    Fixed,
    /// What the input at this place is.
    SameAsInput(usize),
}

/// What turns a text into a handle, for a function that takes one.
#[derive(Clone, Copy, Debug)]
pub enum DefaultResolver {
    /// `dataset_open` with this facet.
    Facet(&'static str),
    /// `dataset_group_open`.
    Group,
}

/// The signature of a function.
#[derive(Clone, Copy, Debug)]
pub struct FuncSig {
    /// The name in programs.
    pub name: &'static str,
    pub category: FuncCategory,
    /// How many outputs there are; zero where a call decides.
    pub outputs: usize,
    /// A short description.
    pub description: &'static str,
    /// A long one.
    pub help: &'static str,
    /// The value of a variadic function of no operand.
    pub identity: Option<u64>,
    /// The parameters in call order.
    pub params: &'static [ParamSpec],
    pub arity: Arity,
    pub default_resolver: Option<DefaultResolver>,
    pub output_type: OutputType,
    /// The type of the one output, where it is known beforehand.
    pub output_port: Option<PortType>,
}

/// How many of a run of parameters are wires.
pub open spec fn wires_among(params: Seq<ParamSpec>) -> nat
    decreases params.len(),
{
    if params.len() == 0 {
        0
    } else {
        wires_among(params.drop_last()) + if params.last().slot_type is Wire {
            1nat
        } else {
            0nat
        }
    }
}

/// The constants among a run of parameters, in order.
pub open spec fn consts_among(params: Seq<ParamSpec>) -> Seq<ParamSpec> {
    params.filter(|p: ParamSpec| !(p.slot_type is Wire))
}

impl FuncSig {
    /// How many wires the parameter list has.
    pub fn wire_input_count(&self) -> (r: usize)
        ensures
            r == wires_among(self.params@),
    {
        let mut n: usize = 0;
        let mut i: usize = 0;
        assert(self.params@.take(0) =~= Seq::<ParamSpec>::empty());
        while i < self.params.len()
            invariant
                i <= self.params@.len(),
                n <= i,
                n == wires_among(self.params@.take(i as int)),
            decreases self.params.len() - i,
        {
            assert(self.params@.take(i + 1).drop_last() =~= self.params@.take(i as int));
            if self.params[i].slot_type.is_wire() {
                n = n + 1;
            }
            i = i + 1;
        }
        assert(self.params@.take(i as int) =~= self.params@);
        n
    }

    /// Whether a part of the parameter list repeats.
    pub fn is_variadic(&self) -> (r: bool)
        ensures
            r == !(self.arity is Fixed),
    {
        match self.arity {
            Arity::Fixed => false,
            _ => true,
        }
    }

    /// The names of the constants, and whether each has to be there.
    pub fn const_param_info(&self) -> (r: Vec<(&'static str, bool)>)
        ensures
            r@.len() == consts_among(self.params@).len(),
            forall|i: int|
                0 <= i < r@.len() ==> (#[trigger] r@[i]).0@ == consts_among(self.params@)[i].name@
                    && r@[i].1 == consts_among(self.params@)[i].required,
    {
        let mut out: Vec<(&'static str, bool)> = Vec::new();
        let mut i: usize = 0;
        let ghost keep = |p: ParamSpec| !(p.slot_type is Wire);
        assert(self.params@.take(0).filter(keep).len() == 0) by {
            reveal(Seq::filter);
        }
        while i < self.params.len()
            invariant
                i <= self.params@.len(),
                keep == |p: ParamSpec| !(p.slot_type is Wire),
                out@.len() == self.params@.take(i as int).filter(keep).len(),
                forall|k: int|
                    0 <= k < out@.len() ==> (#[trigger] out@[k]).0@
                        == self.params@.take(i as int).filter(keep)[k].name@ && out@[k].1
                        == self.params@.take(i as int).filter(keep)[k].required,
            decreases self.params.len() - i,
        {
            let p: ParamSpec = self.params[i];
            proof {
                reveal(Seq::filter);
                assert(self.params@.take(i + 1).drop_last() =~= self.params@.take(i as int));
            }
            if p.slot_type.is_const() {
                out.push((p.name, p.required));
            }
            i = i + 1;
        }
        assert(self.params@.take(i as int) =~= self.params@);
        out
    }
}

// ---------------------------------------------------------------------
// Lookup
// ---------------------------------------------------------------------

/// The first signature of a name.
pub open spec fn signature_of(reg: Seq<FuncSig>, name: Seq<char>) -> Option<FuncSig>
    decreases reg.len(),
{
    if reg.len() == 0 {
        None
    } else if reg[0].name@ == name {
        Some(reg[0])
    } else {
        signature_of(reg.drop_first(), name)
    }
}

/// The signature of `name`, the first where there are more.
pub fn lookup<'a>(reg: &'a Vec<FuncSig>, name: &str) -> (r: Option<&'a FuncSig>)
    ensures
        match r {
            Some(sig) => signature_of(reg@, name@) == Some(*sig),
            None => signature_of(reg@, name@) is None,
        },
{
    let mut i: usize = 0;
    assert(reg@.skip(0) =~= reg@);
    while i < reg.len()
        invariant
            i <= reg@.len(),
            signature_of(reg@, name@) == signature_of(reg@.skip(i as int), name@),
        decreases reg.len() - i,
    {
        assert(reg@.skip(i as int)[0] == reg@[i as int]);
        assert(reg@.skip(i as int).drop_first() =~= reg@.skip(i + 1));
        if *reg[i].name == *name {
            return Some(&reg[i]);
        }
        i = i + 1;
    }
    None
}

/// The signatures of several node modules, one module after the other.
pub open spec fn all_signatures(modules: Seq<Seq<FuncSig>>) -> Seq<FuncSig>
    decreases modules.len(),
{
    if modules.len() == 0 {
        Seq::empty()
    } else {
        all_signatures(modules.drop_last()) + modules.last()
    }
}

/// The signatures of all node modules, one module after the other.
pub fn registry(modules: &Vec<&'static [FuncSig]>) -> (r: Vec<FuncSig>)
    ensures
        r@ == all_signatures(Seq::new(modules@.len(), |i: int| modules@[i]@)),
{
    let mut out: Vec<FuncSig> = Vec::new();
    let mut m: usize = 0;
    let ghost all = Seq::new(modules@.len(), |i: int| modules@[i]@);
    assert(all.take(0) =~= Seq::<Seq<FuncSig>>::empty());
    while m < modules.len()
        invariant
            m <= modules@.len(),
            all == Seq::new(modules@.len(), |i: int| modules@[i]@),
            out@ == all_signatures(all.take(m as int)),
        decreases modules.len() - m,
    {
        let part: &[FuncSig] = modules[m];
        let ghost before = out@;
        let mut i: usize = 0;
        assert(before + part@.take(0) =~= before);
        while i < part.len()
            invariant
                i <= part@.len(),
                out@ == before + part@.take(i as int),
            decreases part.len() - i,
        {
            out.push(part[i]);
            i = i + 1;
            assert(before + part@.take(i as int) =~= (before + part@.take(i - 1)).push(
                part@[i - 1],
            ));
        }
        assert(part@.take(i as int) =~= part@);
        assert(all.take(m + 1).drop_last() =~= all.take(m as int));
        m = m + 1;
    }
    assert(all.take(m as int) =~= all);
    out
}

/// The signatures of one category, in order.
pub open spec fn in_category(reg: Seq<FuncSig>, c: FuncCategory) -> Seq<FuncSig> {
    reg.filter(|s: FuncSig| s.category == c)
}

/// The signatures by category, in the order of `cats`; a category without
/// one is left out.
pub open spec fn grouped(reg: Seq<FuncSig>, cats: Seq<FuncCategory>) -> Seq<
    (FuncCategory, Seq<FuncSig>),
>
    decreases cats.len(),
{
    if cats.len() == 0 {
        Seq::empty()
    } else {
        let front = grouped(reg, cats.drop_last());
        let here = in_category(reg, cats.last());
        if here.len() == 0 {
            front
        } else {
            front.push((cats.last(), here))
        }
    }
}

/// The contents of a run of groups.
pub open spec fn group_views(s: Seq<(FuncCategory, Vec<FuncSig>)>) -> Seq<
    (FuncCategory, Seq<FuncSig>),
> {
    Seq::new(s.len(), |i: int| (s[i].0, s[i].1@))
}

/// The signatures of the category `c`, in order.
fn pick_category(reg: &Vec<FuncSig>, c: FuncCategory) -> (r: Vec<FuncSig>)
    ensures
        r@ == in_category(reg@, c),
{
    let mut out: Vec<FuncSig> = Vec::new();
    let mut i: usize = 0;
    let ghost keep = |s: FuncSig| s.category == c;
    assert(reg@.take(0).filter(keep) =~= Seq::<FuncSig>::empty()) by {
        reveal(Seq::filter);
    }
    while i < reg.len()
        invariant
            i <= reg@.len(),
            keep == |s: FuncSig| s.category == c,
            out@ == reg@.take(i as int).filter(keep),
        decreases reg.len() - i,
    {
        proof {
            reveal(Seq::filter);
            assert(reg@.take(i + 1).drop_last() =~= reg@.take(i as int));
        }
        if reg[i].category == c {
            out.push(reg[i]);
        }
        i = i + 1;
    }
    assert(reg@.take(i as int) =~= reg@);
    out
}

/// The signatures by category, in the order of listings.
pub fn by_category(reg: &Vec<FuncSig>) -> (r: Vec<(FuncCategory, Vec<FuncSig>)>)
    ensures
        group_views(r@) == grouped(reg@, categories()),
{
    let order: Vec<FuncCategory> = FuncCategory::display_order();
    let mut out: Vec<(FuncCategory, Vec<FuncSig>)> = Vec::new();
    let mut i: usize = 0;
    assert(order@.take(0) =~= Seq::<FuncCategory>::empty());
    assert(group_views(out@) =~= Seq::<(FuncCategory, Seq<FuncSig>)>::empty());
    while i < order.len()
        invariant
            i <= order@.len(),
            group_views(out@) == grouped(reg@, order@.take(i as int)),
        decreases order.len() - i,
    {
        assert(order@.take(i + 1).drop_last() =~= order@.take(i as int));
        let here: Vec<FuncSig> = pick_category(reg, order[i]);
        let ghost before = out@;
        if here.len() > 0 {
            out.push((order[i], here));
            assert(group_views(out@) =~= group_views(before).push((order@[i as int], here@)));
        }
        i = i + 1;
    }
    assert(order@.take(i as int) =~= order@);
    out
}

// ---------------------------------------------------------------------
// Suggestions
// ---------------------------------------------------------------------

/// The least of two numbers.
pub open spec fn least(a: nat, b: nat) -> nat {
    if a <= b {
        a
    } else {
        b
    }
}

/// The least number of insertions, removals and replacements of a
/// character that turn one text into another.
pub open spec fn distance(a: Seq<char>, b: Seq<char>) -> nat
    decreases a.len() + b.len(),
{
    if a.len() == 0 {
        b.len()
    } else if b.len() == 0 {
        a.len()
    } else {
        least(
            least(distance(a.drop_last(), b) + 1, distance(a, b.drop_last()) + 1),
            distance(a.drop_last(), b.drop_last()) + if a.last() == b.last() {
                0nat
            } else {
                1nat
            },
        )
    }
}

/// The distance is at most the length of the longer text.
proof fn lemma_distance_bound(a: Seq<char>, b: Seq<char>)
    ensures
        distance(a, b) <= a.len() || distance(a, b) <= b.len(),
    decreases a.len() + b.len(),
{
    if a.len() > 0 && b.len() > 0 {
        lemma_distance_bound(a.drop_last(), b.drop_last());
    }
}

/// The distance between `a` and `b`.
pub fn edit_distance(a: &str, b: &str) -> (r: usize)
    ensures
        r == distance(a@, b@),
{
    let a: Vec<char> = chars::chars_of(a);
    let b: Vec<char> = chars::chars_of(b);
    let mut row: Vec<usize> = Vec::new();
    row.push(0);
    let mut j: usize = 0;
    assert(distance(a@.take(0), b@.take(0)) == 0);
    while j < b.len()
        invariant
            j <= b@.len(),
            row@.len() == j + 1,
            forall|k: int|
                0 <= k <= j ==> #[trigger] row@[k] == distance(a@.take(0), b@.take(k)),
        decreases b.len() - j,
    {
        j = j + 1;
        row.push(j);
        assert(b@.take(j as int).len() == j);
    }
    let mut i: usize = 0;
    while i < a.len()
        invariant
            i <= a@.len(),
            row@.len() == b@.len() + 1,
            forall|k: int|
                0 <= k <= b@.len() ==> #[trigger] row@[k] == distance(
                    a@.take(i as int),
                    b@.take(k),
                ),
        decreases a.len() - i,
    {
        let mut next: Vec<usize> = Vec::new();
        next.push(i + 1);
        assert(a@.take(i + 1).len() == i + 1);
        assert(distance(a@.take(i + 1), b@.take(0)) == i + 1);
        let mut j: usize = 0;
        while j < b.len()
            invariant
                i < a.len(),
                j <= b@.len(),
                next@.len() == j + 1,
                row@.len() == b@.len() + 1,
                forall|k: int|
                    0 <= k <= b@.len() ==> #[trigger] row@[k] == distance(
                        a@.take(i as int),
                        b@.take(k),
                    ),
                forall|k: int|
                    0 <= k <= j ==> #[trigger] next@[k] == distance(a@.take(i + 1), b@.take(k)),
            decreases b.len() - j,
        {
            let ghost x = a@.take(i + 1);
            let ghost y = b@.take(j + 1);
            assert(x.drop_last() =~= a@.take(i as int));
            assert(y.drop_last() =~= b@.take(j as int));
            proof {
                lemma_distance_bound(x, y);
            }
            let up: usize = row[j + 1];
            let left: usize = next[j];
            let diagonal: usize = row[j];
            assert(distance(x, y) == least(
                least((up + 1) as nat, (left + 1) as nat),
                (diagonal + if a@[i as int] == b@[j as int] {
                    0int
                } else {
                    1int
                }) as nat,
            ));
            let beside: usize = if up <= left {
                up
            } else {
                left
            };
            let here: usize = if a[i] == b[j] {
                if diagonal <= beside {
                    diagonal
                } else {
                    beside + 1
                }
            } else if diagonal <= beside {
                diagonal + 1
            } else {
                beside + 1
            };
            assert(here == distance(x, y));
            next.push(here);
            j = j + 1;
        }
        row = next;
        i = i + 1;
    }
    assert(a@.take(i as int) =~= a@);
    assert(b@.take(b@.len() as int) =~= b@);
    assert(row@[b@.len() as int] == distance(a@, b@));
    row[b.len()]
}

/// The first of the signatures whose name is nearest to `name`, and at most
/// three edits from it: its place.
pub open spec fn nearest(reg: Seq<FuncSig>, name: Seq<char>) -> Option<int>
    decreases reg.len(),
{
    if reg.len() == 0 {
        None
    } else {
        let d = distance(name, reg.last().name@);
        match nearest(reg.drop_last(), name) {
            Some(k) => if d < distance(name, reg[k].name@) {
                Some(reg.len() - 1)
            } else {
                Some(k)
            },
            None => if d <= 3 {
                Some(reg.len() - 1)
            } else {
                None
            },
        }
    }
}

/// The place that `nearest` gives is one of the run, at most three edits
/// off, and no other is nearer; without one, all are farther off.
pub proof fn law_nearest(reg: Seq<FuncSig>, name: Seq<char>)
    ensures
        match nearest(reg, name) {
            Some(k) => 0 <= k < reg.len() && distance(name, reg[k].name@) <= 3 && (forall|i: int|
                0 <= i < reg.len() ==> distance(name, reg[k].name@) <= distance(
                    name,
                    (#[trigger] reg[i]).name@,
                )) && (forall|i: int|
                0 <= i < k ==> distance(name, reg[k].name@) < distance(
                    name,
                    (#[trigger] reg[i]).name@,
                )),
            None => forall|i: int|
                0 <= i < reg.len() ==> distance(name, (#[trigger] reg[i]).name@) > 3,
        },
    decreases reg.len(),
{
    if reg.len() > 0 {
        let front = reg.drop_last();
        law_nearest(front, name);
        assert forall|i: int| 0 <= i < front.len() implies front[i] == reg[i] by {}
        match nearest(front, name) {
            Some(k) => {
                assert(front[k] == reg[k]);
            },
            None => {},
        }
    }
}

/// The name nearest to a misspelt one.
pub fn suggest_function(reg: &Vec<FuncSig>, name: &str) -> (r: Option<&'static str>)
    ensures
        match r {
            Some(s) => nearest(reg@, name@) is Some && s@ == reg@[nearest(
                reg@,
                name@,
            )->Some_0].name@,
            None => nearest(reg@, name@) is None,
        },
{
    let mut best: Option<(usize, usize)> = None;
    let mut i: usize = 0;
    assert(reg@.take(0) =~= Seq::<FuncSig>::empty());
    while i < reg.len()
        invariant
            i <= reg@.len(),
            match best {
                Some((k, d)) => k < i && nearest(reg@.take(i as int), name@) == Some(k as int)
                    && d == distance(name@, reg@[k as int].name@),
                None => nearest(reg@.take(i as int), name@) is None,
            },
        decreases reg.len() - i,
    {
        assert(reg@.take(i + 1).drop_last() =~= reg@.take(i as int));
        let d: usize = edit_distance(name, reg[i].name);
        match best {
            Some((_, so_far)) => {
                if d < so_far {
                    best = Some((i, d));
                }
            },
            None => {
                if d <= 3 {
                    best = Some((i, d));
                }
            },
        }
        i = i + 1;
    }
    assert(reg@.take(i as int) =~= reg@);
    match best {
        Some((k, _)) => Some(reg[k].name),
        None => None,
    }
}

/// The signatures that a run of groups holds, group by group.
pub open spec fn group_items(groups: Seq<(FuncCategory, Seq<FuncSig>)>) -> Seq<FuncSig>
    decreases groups.len(),
{
    if groups.len() == 0 {
        Seq::empty()
    } else {
        group_items(groups.drop_last()) + groups.last().1
    }
}

/// How often a category stands in a run.
spec fn times(cats: Seq<FuncCategory>, c: FuncCategory) -> nat
    decreases cats.len(),
{
    if cats.len() == 0 {
        0
    } else {
        times(cats.drop_last(), c) + if cats.last() == c {
            1nat
        } else {
            0nat
        }
    }
}

/// The groups of a run of categories hold those of the run before the last,
/// and then those of the last.
proof fn lemma_items_step(reg: Seq<FuncSig>, cats: Seq<FuncCategory>)
    requires
        cats.len() > 0,
    ensures
        group_items(grouped(reg, cats)) == group_items(grouped(reg, cats.drop_last()))
            + in_category(reg, cats.last()),
{
    let front = grouped(reg, cats.drop_last());
    let here = in_category(reg, cats.last());
    if here.len() == 0 {
        assert(group_items(front) + here =~= group_items(front));
    } else {
        assert(front.push((cats.last(), here)).drop_last() =~= front);
    }
}

/// One signature more is in as many groups as its category stands in the
/// run.
proof fn lemma_one_more(reg: Seq<FuncSig>, cats: Seq<FuncCategory>, x: FuncSig)
    requires
        reg.len() > 0,
    ensures
        group_items(grouped(reg, cats)).to_multiset().count(x) == group_items(
            grouped(reg.drop_last(), cats),
        ).to_multiset().count(x) + if x == reg.last() {
            times(cats, reg.last().category)
        } else {
            0nat
        },
    decreases cats.len(),
{
    broadcast use vstd::seq_lib::group_to_multiset_ensures;

    if cats.len() > 0 {
        let c = cats.last();
        let front = reg.drop_last();
        lemma_one_more(reg, cats.drop_last(), x);
        lemma_items_step(reg, cats);
        lemma_items_step(front, cats);
        let here = in_category(reg, c);
        let there = in_category(front, c);
        reveal(Seq::filter);
        assert(here == if reg.last().category == c {
            there.push(reg.last())
        } else {
            there
        });
        vstd::seq_lib::lemma_multiset_commutative(
            group_items(grouped(reg, cats.drop_last())),
            here,
        );
        vstd::seq_lib::lemma_multiset_commutative(
            group_items(grouped(front, cats.drop_last())),
            there,
        );
    }
}

proof fn lemma_no_groups(cats: Seq<FuncCategory>)
    ensures
        group_items(grouped(Seq::empty(), cats)) == Seq::<FuncSig>::empty(),
    decreases cats.len(),
{
    if cats.len() > 0 {
        lemma_no_groups(cats.drop_last());
        reveal(Seq::filter);
        assert(in_category(Seq::empty(), cats.last()).len() == 0);
    }
}

/// The groups by category hold every signature, each once: one after the
/// other they are a rearrangement of the registry.
pub proof fn law_groups_cover(reg: Seq<FuncSig>)
    ensures
        group_items(grouped(reg, categories())).to_multiset() =~= reg.to_multiset(),
    decreases reg.len(),
{
    broadcast use vstd::seq_lib::group_to_multiset_ensures;

    let items = group_items(grouped(reg, categories()));
    if reg.len() == 0 {
        assert(reg =~= Seq::empty());
        lemma_no_groups(categories());
    } else {
        let front = reg.drop_last();
        law_groups_cover(front);
        assert(reg =~= front.push(reg.last()));
        assert forall|x: FuncSig| items.to_multiset().count(x) == reg.to_multiset().count(x) by {
            lemma_one_more(reg, categories(), x);
            lemma_once(reg.last().category);
        }
    }
}

/// White space around a text is taken away with the text's own.
proof fn lemma_space_around(pre: Seq<char>, s: Seq<char>, post: Seq<char>)
    requires
        forall|i: int| 0 <= i < pre.len() ==> chars::is_space(#[trigger] pre[i]),
        forall|i: int| 0 <= i < post.len() ==> chars::is_space(#[trigger] post[i]),
    ensures
        chars::trim(pre + s + post) == chars::trim(s),
    decreases pre.len() + s.len() + post.len(),
{
    let whole = pre + s + post;
    if pre.len() > 0 {
        let rest = pre.drop_first();
        assert(whole[0] == pre[0]);
        assert(whole.drop_first() =~= rest + s + post);
        assert forall|i: int| 0 <= i < rest.len() implies chars::is_space(#[trigger] rest[i]) by {
            assert(chars::is_space(pre[i + 1]));
        }
        lemma_space_around(rest, s, post);
    } else if s.len() > 0 && chars::is_space(s[0]) {
        assert(whole[0] == s[0]);
        assert(whole.drop_first() =~= pre + s.drop_first() + post);
        lemma_space_around(pre, s.drop_first(), post);
    } else if s.len() > 0 {
        assert(whole =~= s + post);
        assert(whole[0] == s[0]);
        lemma_space_behind(s, post);
    } else {
        assert(whole =~= post);
        lemma_all_space(post);
    }
}

/// White space behind a text is taken away.
proof fn lemma_space_behind(s: Seq<char>, post: Seq<char>)
    requires
        forall|i: int| 0 <= i < post.len() ==> chars::is_space(#[trigger] post[i]),
    ensures
        chars::trim_end(s + post) == chars::trim_end(s),
    decreases post.len(),
{
    if post.len() == 0 {
        assert(s + post =~= s);
    } else {
        assert((s + post).last() == post.last());
        assert((s + post).drop_last() =~= s + post.drop_last());
        assert(chars::is_space(post[post.len() - 1]));
        lemma_space_behind(s, post.drop_last());
    }
}

/// Nothing is left of white space.
proof fn lemma_all_space(s: Seq<char>)
    requires
        forall|i: int| 0 <= i < s.len() ==> chars::is_space(#[trigger] s[i]),
    ensures
        chars::trim(s) == Seq::<char>::empty(),
    decreases s.len(),
{
    if s.len() > 0 {
        let rest = s.drop_first();
        assert forall|i: int| 0 <= i < rest.len() implies chars::is_space(#[trigger] rest[i]) by {
            assert(chars::is_space(s[i + 1]));
        }
        assert(chars::is_space(s[0]));
        lemma_all_space(rest);
    } else {
        assert(chars::trim(s) =~= Seq::<char>::empty());
    }
}

/// A category is named whatever white space stands around its name.
pub proof fn law_category_ignores_space(pre: Seq<char>, s: Seq<char>, post: Seq<char>)
    requires
        forall|i: int| 0 <= i < pre.len() ==> chars::is_space(#[trigger] pre[i]),
        forall|i: int| 0 <= i < post.len() ==> chars::is_space(#[trigger] post[i]),
    ensures
        category_of(pre + s + post) == category_of(s),
{
    lemma_space_around(pre, s, post);
}

/// What is made small is trimmed as before.
proof fn lemma_lowered_start(s: Seq<char>)
    ensures
        chars::trim_start(chars::lowered(s)) == chars::lowered(chars::trim_start(s)),
    decreases s.len(),
{
    let t = chars::lowered(s);
    if s.len() > 0 {
        assert(chars::is_space(t[0]) == chars::is_space(s[0]));
        assert(t.drop_first() =~= chars::lowered(s.drop_first()));
        lemma_lowered_start(s.drop_first());
    }
}

/// The same of the end.
proof fn lemma_lowered_end(s: Seq<char>)
    ensures
        chars::trim_end(chars::lowered(s)) == chars::lowered(chars::trim_end(s)),
    decreases s.len(),
{
    let t = chars::lowered(s);
    if s.len() > 0 {
        assert(chars::is_space(t.last()) == chars::is_space(s.last()));
        assert(t.drop_last() =~= chars::lowered(s.drop_last()));
        lemma_lowered_end(s.drop_last());
    }
}

/// A category is named whatever the case of its name: texts that differ in
/// the case of ASCII letters alone name the same.
pub proof fn law_category_ignores_case(s: Seq<char>, t: Seq<char>)
    requires
        chars::lowered(s) == chars::lowered(t),
    ensures
        category_of(s) == category_of(t),
{
    lemma_lowered_start(s);
    lemma_lowered_start(t);
    lemma_lowered_end(chars::trim_start(s));
    lemma_lowered_end(chars::trim_start(t));
}

proof fn lemma_once(c: FuncCategory)
    ensures
        times(categories(), c) == 1,
{
    let cats = categories();
    assert(cats.contains(c)) by {
        match c {
            FuncCategory::Hashing => {
                assert(cats[0] == c);
            },
            FuncCategory::Arithmetic => {
                assert(cats[1] == c);
            },
            FuncCategory::Comparison => {
                assert(cats[2] == c);
            },
            FuncCategory::Variadic => {
                assert(cats[3] == c);
            },
            FuncCategory::Conversions => {
                assert(cats[4] == c);
            },
            FuncCategory::Distributions => {
                assert(cats[5] == c);
            },
            FuncCategory::Datetime => {
                assert(cats[6] == c);
            },
            FuncCategory::Encoding => {
                assert(cats[7] == c);
            },
            FuncCategory::Interpolation => {
                assert(cats[8] == c);
            },
            FuncCategory::Math => {
                assert(cats[9] == c);
            },
            FuncCategory::Probability => {
                assert(cats[10] == c);
            },
            FuncCategory::Weighted => {
                assert(cats[11] == c);
            },
            FuncCategory::Formatting => {
                assert(cats[12] == c);
            },
            FuncCategory::String => {
                assert(cats[13] == c);
            },
            FuncCategory::Json => {
                assert(cats[14] == c);
            },
            FuncCategory::ByteBuffers => {
                assert(cats[15] == c);
            },
            FuncCategory::Digest => {
                assert(cats[16] == c);
            },
            FuncCategory::Noise => {
                assert(cats[17] == c);
            },
            FuncCategory::Regex => {
                assert(cats[18] == c);
            },
            FuncCategory::Permutation => {
                assert(cats[19] == c);
            },
            FuncCategory::RealData => {
                assert(cats[20] == c);
            },
            FuncCategory::Context => {
                assert(cats[21] == c);
            },
            FuncCategory::Diagnostic => {
                assert(cats[22] == c);
            },
            FuncCategory::Data => {
                assert(cats[23] == c);
            },
        }
    }
    lemma_times(cats, c);
}

/// A category that stands at one place alone stands there once.
proof fn lemma_times(cats: Seq<FuncCategory>, c: FuncCategory)
    requires
        forall|i: int, j: int| 0 <= i < j < cats.len() ==> cats[i] != cats[j],
    ensures
        times(cats, c) == if cats.contains(c) {
            1nat
        } else {
            0nat
        },
    decreases cats.len(),
{
    if cats.len() > 0 {
        let front = cats.drop_last();
        lemma_times(front, c);
        if cats.last() == c {
            assert(cats[cats.len() - 1] == c);
            if front.contains(c) {
                let i = front.index_of(c);
                assert(cats[i] == cats[cats.len() - 1]);
            }
        } else if cats.contains(c) {
            let i = choose|i: int| 0 <= i < cats.len() && cats[i] == c;
            assert(front[i] == c);
        } else if front.contains(c) {
            let i = front.index_of(c);
            assert(cats[i] == c);
        }
    }
}

} // verus!
