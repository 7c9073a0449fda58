//! The instructions of a program.
use crate::comprehension::metadata::{IndexFn, IndexFnV};
use crate::comprehension::source::{Source, SourceV};
use crate::comprehension::strategy::{StrategyName, ZipMode};
use vstd::prelude::*;

verus! {

/// How an order passes tuples through.
#[derive(Clone, Copy, Debug, PartialEq, Eq, Structural)]
pub enum OrderStreamingKind {
    Lex,
}

/// An instruction: it takes streams from the stack and puts one there.
#[derive(Debug, PartialEq)]
pub enum Op {
    PushClause { name: String, source: Source },
    Cartesian { n: usize },
    Zip { n: usize, mode: ZipMode },
    Union { n: usize },
    Filter { predicate: String },
    OrderStreaming { kind: OrderStreamingKind, truncation: Option<u64> },
    OrderMaterialize {
        strategy: StrategyName,
        truncation: Option<u64>,
        indexed: bool,
        input_index_fn: Option<IndexFn>,
    },
    Dispense,
}

/// The content of an instruction.
#[verifier::ext_equal]
pub enum OpV {
    PushClause(Seq<char>, SourceV),
    Cartesian(nat),
    Zip(nat, ZipMode),
    Union(nat),
    Filter(Seq<char>),
    OrderStreaming(OrderStreamingKind, Option<u64>),
    OrderMaterialize(StrategyName, Option<u64>, bool, Option<IndexFnV>),
    Dispense,
}

impl View for Op {
    type V = OpV;

    open spec fn view(&self) -> OpV {
        match *self {
            Op::PushClause { name, source } => OpV::PushClause(name@, source@),
            Op::Cartesian { n } => OpV::Cartesian(n as nat),
            Op::Zip { n, mode } => OpV::Zip(n as nat, mode),
            Op::Union { n } => OpV::Union(n as nat),
            Op::Filter { predicate } => OpV::Filter(predicate@),
            Op::OrderStreaming { kind, truncation } => OpV::OrderStreaming(kind, truncation),
            Op::OrderMaterialize { strategy, truncation, indexed, input_index_fn } =>
                OpV::OrderMaterialize(
                strategy,
                truncation,
                indexed,
                match input_index_fn {
                    Some(i) => Some(i@),
                    None => None,
                },
            ),
            Op::Dispense => OpV::Dispense,
        }
    }
}

/// The contents of a run of instructions.
pub open spec fn op_views(s: Seq<Op>) -> Seq<OpV> {
    Seq::new(s.len(), |i: int| s[i]@)
}

/// How many streams an instruction takes.
pub open spec fn pops(op: OpV) -> nat {
    match op {
        OpV::PushClause(_, _) => 0,
        OpV::Cartesian(n) => n,
        OpV::Zip(n, _) => n,
        OpV::Union(n) => n,
        OpV::Dispense => 0,
        _ => 1,
    }
}

/// How many streams an instruction puts.
pub open spec fn pushes(op: OpV) -> nat {
    if op is Dispense {
        0
    } else {
        1
    }
}

/// Whether an instruction holds all of its input before it gives any.
pub open spec fn barrier(op: OpV) -> bool {
    op is OrderMaterialize || (op matches OpV::Zip(_, mode) && mode is Cycle)
}

impl Op {
    /// How many streams the instruction takes, and how many it puts.
    pub fn stack_effect(&self) -> (r: (usize, usize))
        ensures
            r.0 == pops(self@),
            r.1 == pushes(self@),
    {
        match self {
            Op::PushClause { .. } => (0, 1),
            Op::Cartesian { n } => (*n, 1),
            Op::Zip { n, .. } => (*n, 1),
            Op::Union { n } => (*n, 1),
            Op::Filter { .. } => (1, 1),
            Op::OrderStreaming { .. } => (1, 1),
            Op::OrderMaterialize { .. } => (1, 1),
            Op::Dispense => (0, 0),
        }
    }

    /// Whether the instruction holds all of its input before it gives any.
    pub fn is_barrier(&self) -> (r: bool)
        ensures
            r == barrier(self@),
    {
        match self {
            Op::OrderMaterialize { .. } => true,
            Op::Zip { mode, .. } => matches!(mode, ZipMode::Cycle),
            _ => false,
        }
    }
}

} // verus!
