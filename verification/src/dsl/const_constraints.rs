//! Validation of the constant arguments of calls.
//!
//! A parameter may carry a rule that its constant has to satisfy. The rule
//! is checked before a node is made, so that the node itself can trust its
//! constants.
use crate::chars;
use crate::dsl::factory::{ConstArg, ConstV};
use crate::float;
use crate::float::{Float64, Side};
use vstd::prelude::*;

verus! {

/// A rule on one constant argument.
#[derive(Clone, Copy, Debug, PartialEq)]
pub enum ConstConstraint {
    /// An integer from `min` to `max`.
    RangeU64 { min: u64, max: u64 },
    /// A double from `min` to `max`.
    RangeF64 { min: Float64, max: Float64 },
    /// An integer of a closed set.
    AllowedU64(&'static [u64]),
    /// An integer other than zero.
    NonZeroU64,
    /// A text with more than white space.
    NonEmptyStr,
    /// A text that the named format accepts.
    StrParser(&'static str),
    /// A finite double above zero.
    PositiveFiniteF64,
    /// A finite double.
    FiniteF64,
}

/// How a constant breaks a rule.
#[derive(Debug, PartialEq)]
pub enum Violation {
    OutsideU64 { min: u64, max: u64, got: u64 },
    OutsideF64 { min: Float64, max: Float64, got: Float64 },
    NotAllowed { allowed: &'static [u64], got: u64 },
    Zero,
    Empty,
    Malformed { message: String },
    NotPositive { got: Float64 },
    NotFinite { got: Float64 },
}

/// What a violation says.
#[verifier::ext_equal]
pub enum ViolationV {
    OutsideU64(u64, u64, u64),
    OutsideF64(Float64, Float64, Float64),
    NotAllowed(Seq<u64>, u64),
    Zero,
    Empty,
    Malformed(Seq<char>),
    NotPositive(Float64),
    NotFinite(Float64),
}

impl View for Violation {
    type V = ViolationV;

    open spec fn view(&self) -> ViolationV {
        match *self {
            Violation::OutsideU64 { min, max, got } => ViolationV::OutsideU64(min, max, got),
            Violation::OutsideF64 { min, max, got } => ViolationV::OutsideF64(min, max, got),
            Violation::NotAllowed { allowed, got } => ViolationV::NotAllowed(allowed@, got),
            Violation::Zero => ViolationV::Zero,
            Violation::Empty => ViolationV::Empty,
            Violation::Malformed { message } => ViolationV::Malformed(message@),
            Violation::NotPositive { got } => ViolationV::NotPositive(got),
            Violation::NotFinite { got } => ViolationV::NotFinite(got),
        }
    }
}

/// Whether a rule can read a constant: an integer rule an integer, a
/// double rule a double or an integer, a text rule a text.
pub open spec fn readable(rule: ConstConstraint, arg: ConstV) -> bool {
    match rule {
        ConstConstraint::RangeU64 { .. }
        | ConstConstraint::AllowedU64(_)
        | ConstConstraint::NonZeroU64 => arg is Int,
        ConstConstraint::RangeF64 { .. }
        | ConstConstraint::PositiveFiniteF64
        | ConstConstraint::FiniteF64 => arg is Int || arg is Float,
        ConstConstraint::NonEmptyStr | ConstConstraint::StrParser(_) => arg is Str,
    }
}

/// The double that a constant stands for.
pub open spec fn double_of(arg: ConstV) -> Float64 {
    match arg {
        ConstV::Float(x) => x,
        ConstV::Int(n) => Float64 { bits: float::int_bits(n as int) },
        _ => Float64 { bits: 0 },
    }
}

/// Whether one double is at most another; never of not-a-number.
pub open spec fn at_most(a: Float64, b: Float64) -> bool {
    a.compared(b) == Some(Side::Below) || a.compared(b) == Some(Side::Same)
}

/// How `arg` breaks `rule`, if it does. `format` is what the named format
/// says of a text.
pub open spec fn broken(
    rule: ConstConstraint,
    arg: ConstV,
    format: Result<(), Seq<char>>,
) -> Option<ViolationV> {
    let x = double_of(arg);
    let zero = Float64 { bits: 0 };
    match rule {
        ConstConstraint::RangeU64 { min, max } => if arg->Int_0 < min || arg->Int_0 > max {
            Some(ViolationV::OutsideU64(min, max, arg->Int_0))
        } else {
            None
        },
        ConstConstraint::RangeF64 { min, max } => if at_most(min, x) && at_most(x, max) {
            None
        } else {
            Some(ViolationV::OutsideF64(min, max, x))
        },
        ConstConstraint::AllowedU64(allowed) => if allowed@.contains(arg->Int_0) {
            None
        } else {
            Some(ViolationV::NotAllowed(allowed@, arg->Int_0))
        },
        ConstConstraint::NonZeroU64 => if arg->Int_0 == 0 {
            Some(ViolationV::Zero)
        } else {
            None
        },
        ConstConstraint::NonEmptyStr => if chars::trim(arg->Str_0).len() == 0 {
            Some(ViolationV::Empty)
        } else {
            None
        },
        ConstConstraint::StrParser(_) => match format {
            Ok(_) => None,
            Err(e) => Some(ViolationV::Malformed(e)),
        },
        ConstConstraint::PositiveFiniteF64 => if !x.finite() || at_most(x, zero) {
            Some(ViolationV::NotPositive(x))
        } else {
            None
        },
        ConstConstraint::FiniteF64 => if !x.finite() {
            Some(ViolationV::NotFinite(x))
        } else {
            None
        },
    }
}

/// The content of what a format says of a text.
pub open spec fn verdict(r: Result<(), String>) -> Result<(), Seq<char>> {
    match r {
        Ok(_) => Ok(()),
        Err(e) => Err(e@),
    }
}

/// Whether `a` is at most `b`.
fn not_above(a: Float64, b: Float64) -> (r: bool)
    ensures
        r == at_most(a, b),
{
    match a.compare(b) {
        Some(Side::Below) => true,
        Some(Side::Same) => true,
        _ => false,
    }
}

/// Whether `n` is among `set`.
fn listed(set: &[u64], n: u64) -> (r: bool)
    ensures
        r == set@.contains(n),
{
    let mut i: usize = 0;
    while i < set.len()
        invariant
            i <= set@.len(),
            forall|k: int| 0 <= k < i ==> set@[k] != n,
        decreases set.len() - i,
    {
        if set[i] == n {
            return true;
        }
        i = i + 1;
    }
    false
}

impl ConstConstraint {
    /// Applies the rule to `arg`. `format` is what the named format says of
    /// the text, and is read by that rule alone.
    pub fn check(&self, arg: &ConstArg, format: &Result<(), String>) -> (r: Result<(), Violation>)
        requires
            readable(*self, arg@),
        ensures
            match r {
                Ok(_) => broken(*self, arg@, verdict(*format)) is None,
                Err(v) => broken(*self, arg@, verdict(*format)) == Some(v@),
            },
    {
        match self {
            ConstConstraint::RangeU64 { min, max } => match arg {
                ConstArg::Int(v) => if *v < *min || *v > *max {
                    Err(Violation::OutsideU64 { min: *min, max: *max, got: *v })
                } else {
                    Ok(())
                },
                _ => Ok(()),
            },
            ConstConstraint::RangeF64 { min, max } => {
                let v: Float64 = read_double(arg);
                if not_above(*min, v) && not_above(v, *max) {
                    Ok(())
                } else {
                    Err(Violation::OutsideF64 { min: *min, max: *max, got: v })
                }
            },
            ConstConstraint::AllowedU64(allowed) => match arg {
                ConstArg::Int(v) => if listed(allowed, *v) {
                    Ok(())
                } else {
                    Err(Violation::NotAllowed { allowed: *allowed, got: *v })
                },
                _ => Ok(()),
            },
            ConstConstraint::NonZeroU64 => match arg {
                ConstArg::Int(v) => if *v == 0 {
                    Err(Violation::Zero)
                } else {
                    Ok(())
                },
                _ => Ok(()),
            },
            ConstConstraint::NonEmptyStr => match arg {
                ConstArg::Str(s) => {
                    let text: Vec<char> = chars::trim_chars(&chars::chars_of(s.as_str()));
                    if text.len() == 0 {
                        Err(Violation::Empty)
                    } else {
                        Ok(())
                    }
                },
                _ => Ok(()),
            },
            ConstConstraint::StrParser(_) => match format {
                Ok(_) => Ok(()),
                Err(e) => Err(Violation::Malformed { message: e.clone() }),
            },
            ConstConstraint::PositiveFiniteF64 => {
                let v: Float64 = read_double(arg);
                if !v.is_finite() || not_above(v, Float64::from_bits(0)) {
                    Err(Violation::NotPositive { got: v })
                } else {
                    Ok(())
                }
            },
            ConstConstraint::FiniteF64 => {
                let v: Float64 = read_double(arg);
                if !v.is_finite() {
                    Err(Violation::NotFinite { got: v })
                } else {
                    Ok(())
                }
            },
        }
    }
}

/// The double that `arg` stands for.
fn read_double(arg: &ConstArg) -> (r: Float64)
    ensures
        r == double_of(arg@),
{
    match arg {
        ConstArg::Float(x) => *x,
        ConstArg::Int(n) => Float64::from_u64(*n),
        _ => Float64::from_bits(0),
    }
}

/// Applies a rule to the constant at `index`, if there is one: whether it
/// has to be there is no matter of the rule.
pub fn check_opt(
    constraint: &ConstConstraint,
    consts: &Vec<ConstArg>,
    index: usize,
    format: &Result<(), String>,
) -> (r: Result<(), Violation>)
    requires
        index < consts@.len() ==> readable(*constraint, consts@[index as int]@),
    ensures
        index >= consts@.len() ==> r is Ok,
        index < consts@.len() ==> match r {
            Ok(_) => broken(*constraint, consts@[index as int]@, verdict(*format)) is None,
            Err(v) => broken(*constraint, consts@[index as int]@, verdict(*format)) == Some(v@),
        },
{
    if index < consts.len() {
        constraint.check(&consts[index], format)
    } else {
        Ok(())
    }
}

// ---------------------------------------------------------------------
// Messages
// ---------------------------------------------------------------------

/// The numbers of a set in square brackets.
pub open spec fn set_text(s: Seq<u64>) -> Seq<char> {
    "["@ + chars::joined(Seq::new(s.len(), |i: int| chars::decimal(s[i] as nat)), ", "@) + "]"@
}

/// The message of a violation for a parameter. `min`, `max` and `got` are
/// how the doubles of the violation print.
pub open spec fn violation_text(
    v: ViolationV,
    param: Seq<char>,
    min: Seq<char>,
    max: Seq<char>,
    got: Seq<char>,
) -> Seq<char> {
    match v {
        ViolationV::OutsideU64(lo, hi, n) => param + " must be in ["@ + chars::decimal(lo as nat)
            + ", "@ + chars::decimal(hi as nat) + "], got "@ + chars::decimal(n as nat),
        ViolationV::OutsideF64(_, _, _) => param + " must be in ["@ + min + ", "@ + max
            + "], got "@ + got,
        ViolationV::NotAllowed(allowed, n) => param + " must be one of "@ + set_text(allowed)
            + ", got "@ + chars::decimal(n as nat),
        ViolationV::Zero => param + " must be non-zero"@,
        ViolationV::Empty => param + " must be non-empty"@,
        ViolationV::Malformed(e) => param + ": "@ + e,
        ViolationV::NotPositive(_) => param + " must be a positive finite f64, got "@ + got,
        ViolationV::NotFinite(_) => param + " must be a finite f64, got "@ + got,
    }
}

/// The numbers of `set` in square brackets.
fn show_set(set: &[u64]) -> (r: String)
    ensures
        r@ == set_text(set@),
{
    let mut parts: Vec<String> = Vec::new();
    let mut i: usize = 0;
    let ghost all = Seq::new(set@.len(), |k: int| chars::decimal(set@[k] as nat));
    while i < set.len()
        invariant
            i <= set@.len(),
            parts@.len() == i,
            all == Seq::new(set@.len(), |k: int| chars::decimal(set@[k] as nat)),
            forall|k: int| 0 <= k < i ==> (#[trigger] parts@[k])@ == all[k],
        decreases set.len() - i,
    {
        parts.push(chars::u64_text(set[i]));
        i = i + 1;
    }
    assert(chars::texts(parts@) =~= all);
    let mut out: String = "[".to_owned();
    out.append(chars::join(&parts, ", ").as_str());
    out.append("]");
    out
}

impl Violation {
    /// The message for the parameter `param`; `min`, `max` and `got` are
    /// how the doubles of the violation print.
    pub fn to_string(&self, param: &str, min: &str, max: &str, got: &str) -> (r: String)
        ensures
            r@ == violation_text(self@, param@, min@, max@, got@),
    {
        let mut out: String = param.to_owned();
        match self {
            Violation::OutsideU64 { min: lo, max: hi, got: n } => {
                out.append(" must be in [");
                out.append(chars::u64_text(*lo).as_str());
                out.append(", ");
                out.append(chars::u64_text(*hi).as_str());
                out.append("], got ");
                out.append(chars::u64_text(*n).as_str());
            },
            Violation::OutsideF64 { .. } => {
                out.append(" must be in [");
                out.append(min);
                out.append(", ");
                out.append(max);
                out.append("], got ");
                out.append(got);
            },
            Violation::NotAllowed { allowed, got: n } => {
                out.append(" must be one of ");
                out.append(show_set(allowed).as_str());
                out.append(", got ");
                out.append(chars::u64_text(*n).as_str());
            },
            Violation::Zero => {
                out.append(" must be non-zero");
            },
            Violation::Empty => {
                out.append(" must be non-empty");
            },
            Violation::Malformed { message } => {
                out.append(": ");
                out.append(message.as_str());
            },
            Violation::NotPositive { .. } => {
                out.append(" must be a positive finite f64, got ");
                out.append(got);
            },
            Violation::NotFinite { .. } => {
                out.append(" must be a finite f64, got ");
                out.append(got);
            },
        }
        out
    }
}

} // verus!
