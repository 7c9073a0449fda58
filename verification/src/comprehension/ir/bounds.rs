//! What a program holds in memory at most.
use super::op;
use super::op::{Op, OpV};
use super::program;
use super::program::Program;
use crate::chars;
use crate::comprehension::strategy::ZipMode;
use vstd::prelude::*;

verus! {

/// What a program holds in memory at most.
#[derive(Debug, PartialEq)]
pub struct ResourceBound {
    /// The largest number of streams on the stack.
    pub stack_depth: usize,
    /// The number of instructions that hold a fixed amount.
    pub streaming_op_count: usize,
    /// The instructions that hold all of their input.
    pub barriers: Vec<Bound>,
}

/// What one instruction holds.
#[derive(Debug, PartialEq)]
pub struct Bound {
    /// The place of the instruction in the program.
    pub op_index: usize,
    /// The instruction in words.
    pub description: String,
    /// The number of tuples it holds, where that is known.
    pub working_set_size: Option<u64>,
}

/// The content of a bound.
#[verifier::ext_equal]
pub struct BoundV {
    pub op_index: int,
    pub description: Seq<char>,
    pub working_set_size: Option<u64>,
}

impl View for Bound {
    type V = BoundV;

    open spec fn view(&self) -> BoundV {
        BoundV {
            op_index: self.op_index as int,
            description: self.description@,
            working_set_size: self.working_set_size,
        }
    }
}

/// The contents of a run of bounds.
pub open spec fn bound_views(s: Seq<Bound>) -> Seq<BoundV> {
    Seq::new(s.len(), |i: int| s[i]@)
}

/// The sum of the working sets, where all are known.
pub open spec fn working_total(s: Seq<BoundV>) -> Option<nat>
    decreases s.len(),
{
    if s.len() == 0 {
        Some(0)
    } else {
        match (working_total(s.drop_last()), s.last().working_set_size) {
            (Some(a), Some(b)) => Some(a + b as nat),
            _ => None,
        }
    }
}

proof fn lemma_working_total_prefix(s: Seq<BoundV>, k: int)
    requires
        0 <= k <= s.len(),
        working_total(s.take(k)) is None,
    ensures
        working_total(s) is None,
    decreases s.len(),
{
    if k == s.len() {
        assert(s.take(k) =~= s);
    } else {
        assert(s.drop_last().take(k) =~= s.take(k));
        lemma_working_total_prefix(s.drop_last(), k);
    }
}

impl ResourceBound {
    /// The sum of the working sets, at most `u64::MAX`; `None` where one is
    /// not known.
    pub fn total_barrier_working_set(&self) -> (r: Option<u64>)
        ensures
            r is Some <==> working_total(bound_views(self.barriers@)) is Some,
            r matches Some(n) ==> n == (if working_total(bound_views(self.barriers@))->0
                <= u64::MAX {
                working_total(bound_views(self.barriers@))->0 as u64
            } else {
                u64::MAX
            }),
    {
        let mut total: u64 = 0;
        let mut i: usize = 0;
        let ghost all = bound_views(self.barriers@);
        assert(all.take(0) =~= Seq::<BoundV>::empty());
        while i < self.barriers.len()
            invariant
                i <= self.barriers@.len(),
                all == bound_views(self.barriers@),
                working_total(all.take(i as int)) is Some,
                total == (if working_total(all.take(i as int))->0 <= u64::MAX {
                    working_total(all.take(i as int))->0 as u64
                } else {
                    u64::MAX
                }),
            decreases self.barriers.len() - i,
        {
            assert(all.take(i + 1).drop_last() =~= all.take(i as int));
            assert(all.take(i + 1).last() == self.barriers@[i as int]@);
            match self.barriers[i].working_set_size {
                Some(w) => {
                    total = total.saturating_add(w);
                },
                None => {
                    proof {
                        lemma_working_total_prefix(all, i + 1);
                    }
                    return None;
                },
            }
            i = i + 1;
        }
        assert(all.take(i as int) =~= all);
        Some(total)
    }
}

/// A truncation in words.
pub open spec fn truncation_text(t: Option<u64>) -> Seq<char> {
    match t {
        Some(n) => "Some("@ + chars::decimal(n as nat) + ")"@,
        None => "None"@,
    }
}

/// What an instruction holds.
pub open spec fn barrier_of(i: int, o: OpV) -> BoundV {
    match o {
        OpV::OrderMaterialize(strategy, truncation, indexed, _) => BoundV {
            op_index: i,
            description: "ORDER_MATERIALIZE("@ + strategy.text() + ", indexed="@ + (if indexed {
                "true"@
            } else {
                "false"@
            }) + ", truncation="@ + truncation_text(truncation) + ")"@,
            working_set_size: truncation,
        },
        OpV::Zip(n, _) => BoundV {
            op_index: i,
            description: "ZIP(Cycle, "@ + chars::decimal(n) + ")"@,
            working_set_size: None,
        },
        _ => BoundV { op_index: i, description: Seq::empty(), working_set_size: None },
    }
}

/// The instructions that hold all of their input.
pub open spec fn barriers_of(ops: Seq<OpV>) -> Seq<BoundV>
    decreases ops.len(),
{
    if ops.len() == 0 {
        Seq::empty()
    } else if op::barrier(ops.last()) {
        barriers_of(ops.drop_last()).push(barrier_of(ops.len() - 1, ops.last()))
    } else {
        barriers_of(ops.drop_last())
    }
}

/// The number of instructions that hold a fixed amount.
pub open spec fn streaming_count(ops: Seq<OpV>) -> nat
    decreases ops.len(),
{
    if ops.len() == 0 {
        0
    } else if !op::barrier(ops.last()) && !(ops.last() is Dispense) {
        streaming_count(ops.drop_last()) + 1
    } else {
        streaming_count(ops.drop_last())
    }
}

/// What `program` holds in memory at most.
pub fn check_bounds(program: &Program) -> (r: ResourceBound)
    requires
        program::depths_fit(program@),
    ensures
        r.stack_depth == program::peak_depth(program@),
        r.streaming_op_count == streaming_count(program@),
        bound_views(r.barriers@) == barriers_of(program@),
{
    let stack_depth: usize = program.stack_depth();
    let mut streaming_op_count: usize = 0;
    let mut barriers: Vec<Bound> = Vec::new();
    let ops: &[Op] = program.ops();
    let mut i: usize = 0;
    let ghost all = program@;
    assert(all.take(0) =~= Seq::<OpV>::empty());
    assert(bound_views(barriers@) =~= Seq::<BoundV>::empty());
    while i < ops.len()
        invariant
            i <= ops@.len(),
            all == op::op_views(ops@),
            streaming_op_count <= i,
            streaming_op_count == streaming_count(all.take(i as int)),
            bound_views(barriers@) == barriers_of(all.take(i as int)),
        decreases ops.len() - i,
    {
        assert(all.take(i + 1).drop_last() =~= all.take(i as int));
        assert(all.take(i + 1).last() == ops@[i as int]@);
        let ghost before = barriers@;
        if ops[i].is_barrier() {
            let b: Bound = barrier_for(i, &ops[i]);
            let ghost bv = b@;
            barriers.push(b);
            assert(bound_views(barriers@) =~= bound_views(before).push(bv));
        } else if !matches!(ops[i], Op::Dispense) {
            streaming_op_count = streaming_op_count + 1;
        }
        i = i + 1;
    }
    assert(all.take(i as int) =~= all);
    ResourceBound { stack_depth, streaming_op_count, barriers }
}

/// What the instruction `o` at `op_index` holds.
fn barrier_for(op_index: usize, o: &Op) -> (r: Bound)
    requires
        op::barrier(o@),
    ensures
        r@ == barrier_of(op_index as int, o@),
{
    match o {
        Op::OrderMaterialize { strategy, truncation, indexed, .. } => {
            let mut description: String = "ORDER_MATERIALIZE(".to_owned();
            description.append(strategy.as_str());
            description.append(", indexed=");
            description.append(
                if *indexed {
                    "true"
                } else {
                    "false"
                },
            );
            description.append(", truncation=");
            match truncation {
                Some(n) => {
                    description.append("Some(");
                    description.append(chars::u64_text(*n).as_str());
                    description.append(")");
                },
                None => {
                    description.append("None");
                },
            }
            description.append(")");
            let r = Bound { op_index, description, working_set_size: *truncation };
            assert(r@.description =~= barrier_of(op_index as int, o@).description);
            r
        },
        Op::Zip { n, mode: ZipMode::Cycle } => {
            let mut description: String = "ZIP(Cycle, ".to_owned();
            description.append(chars::usize_text(*n).as_str());
            description.append(")");
            Bound { op_index, description, working_set_size: None }
        },
        _ => Bound { op_index, description: String::new(), working_set_size: None },
    }
}

// ---------------------------------------------------------------------
// Laws
// ---------------------------------------------------------------------

/// Every instruction is counted once: it streams, it is a barrier, or it
/// dispenses.
pub proof fn law_ops_counted(ops: Seq<OpV>)
    ensures
        streaming_count(ops) + barriers_of(ops).len() + ops.filter(|o: OpV| o is Dispense).len()
            == ops.len(),
    decreases ops.len(),
{
    let p = |o: OpV| o is Dispense;
    reveal(Seq::filter);
    if ops.len() > 0 {
        law_ops_counted(ops.drop_last());
        assert(ops.drop_last().filter(|o: OpV| o is Dispense) == ops.drop_last().filter(p)) by {
            assert((|o: OpV| o is Dispense) =~= p);
        }
    }
    assert((|o: OpV| o is Dispense) =~= p);
}

/// The barriers are in the order of the program, each that of the
/// instruction at its place, and every instruction that is one has its own.
pub proof fn law_barriers_placed(ops: Seq<OpV>)
    ensures
        forall|k: int|
            0 <= k < barriers_of(ops).len() ==> {
                let i = (#[trigger] barriers_of(ops)[k]).op_index;
                &&& 0 <= i < ops.len()
                &&& op::barrier(ops[i])
                &&& barriers_of(ops)[k] == barrier_of(i, ops[i])
            },
        forall|j: int, k: int|
            0 <= j < k < barriers_of(ops).len() ==> (#[trigger] barriers_of(ops)[j]).op_index < (
            #[trigger] barriers_of(ops)[k]).op_index,
        forall|i: int|
            0 <= i < ops.len() && op::barrier(#[trigger] ops[i]) ==> barriers_of(ops).contains(
                barrier_of(i, ops[i]),
            ),
    decreases ops.len(),
{
    if ops.len() > 0 {
        let front = ops.drop_last();
        law_barriers_placed(front);
        assert forall|i: int| 0 <= i < ops.len() && op::barrier(#[trigger] ops[i]) implies
            barriers_of(ops).contains(barrier_of(i, ops[i])) by {
            if i < front.len() {
                assert(front[i] == ops[i]);
                let k = barriers_of(front).index_of(barrier_of(i, ops[i]));
                assert(barriers_of(ops)[k] == barriers_of(front)[k]);
            } else {
                assert(barriers_of(ops).last() == barrier_of(i, ops[i]));
            }
        }
    }
}

} // verus!
