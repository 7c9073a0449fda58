//! Constant arguments of calls.
use crate::float::Float64;
use crate::value;
use vstd::prelude::*;

verus! {

/// A constant argument of a call.
#[derive(Debug, PartialEq)]
pub enum ConstArg {
    Int(u64),
    Float(Float64),
    Str(String),
    FloatArray(Vec<Float64>),
}

/// The content of a constant argument.
#[verifier::ext_equal]
pub enum ConstV {
    Int(u64),
    Float(Float64),
    Str(Seq<char>),
    FloatArray(Seq<Float64>),
}

impl View for ConstArg {
    type V = ConstV;

    open spec fn view(&self) -> ConstV {
        match *self {
            ConstArg::Int(v) => ConstV::Int(v),
            ConstArg::Float(v) => ConstV::Float(v),
            ConstArg::Str(s) => ConstV::Str(s@),
            ConstArg::FloatArray(v) => ConstV::FloatArray(v@),
        }
    }
}

/// The contents of a run of constant arguments.
pub open spec fn const_views(s: Seq<ConstArg>) -> Seq<ConstV> {
    Seq::new(s.len(), |i: int| s[i]@)
}

impl ConstArg {
    /// The same constant.
    pub fn copy(&self) -> (r: ConstArg)
        ensures
            r@ == self@,
    {
        match self {
            ConstArg::Int(v) => ConstArg::Int(*v),
            ConstArg::Float(v) => ConstArg::Float(*v),
            ConstArg::Str(s) => ConstArg::Str(s.clone()),
            ConstArg::FloatArray(v) => ConstArg::FloatArray(value::same_items(v)),
        }
    }
}

/// The same constants.
pub fn copy_consts(v: &Vec<ConstArg>) -> (r: Vec<ConstArg>)
    ensures
        const_views(r@) == const_views(v@),
{
    let mut out: Vec<ConstArg> = Vec::new();
    let mut i: usize = 0;
    while i < v.len()
        invariant
            i <= v@.len(),
            out@.len() == i,
            forall|k: int| 0 <= k < i ==> (#[trigger] out@[k])@ == v@[k]@,
        decreases v.len() - i,
    {
        out.push(v[i].copy());
        i = i + 1;
    }
    assert(const_views(out@) =~= const_views(v@));
    out
}

} // verus!
