//! Programs: instructions in order, fixed once made.
use super::op;
use super::op::{Op, OpV};
use vstd::prelude::*;

verus! {

/// Instructions in order.
#[derive(Debug, PartialEq)]
pub struct Program {
    ops: Vec<Op>,
}

impl View for Program {
    type V = Seq<OpV>;

    closed spec fn view(&self) -> Seq<OpV> {
        op::op_views(self.ops@)
    }
}

/// The number of streams on the stack after a run of instructions.
pub open spec fn depth_after(ops: Seq<OpV>) -> int
    decreases ops.len(),
{
    if ops.len() == 0 {
        0
    } else {
        depth_after(ops.drop_last()) - op::pops(ops.last()) + op::pushes(ops.last())
    }
}

/// The largest number of streams on the stack along a run of instructions.
pub open spec fn peak_depth(ops: Seq<OpV>) -> int
    decreases ops.len(),
{
    if ops.len() == 0 {
        0
    } else if depth_after(ops) > peak_depth(ops.drop_last()) {
        depth_after(ops)
    } else {
        peak_depth(ops.drop_last())
    }
}

/// Whether the depths along a run of instructions, before and after each of
/// them puts its stream back, fit in 64 signed bits.
pub open spec fn depths_fit(ops: Seq<OpV>) -> bool {
    &&& forall|k: int| 0 <= k <= ops.len() ==> #[trigger] depth_after(ops.take(k)) <= i64::MAX
    &&& forall|k: int|
        0 <= k < ops.len() ==> op::pops(#[trigger] ops[k]) <= i64::MAX && i64::MIN
            <= depth_after(ops.take(k)) - op::pops(ops[k])
}

impl Program {
    /// A program of these instructions.
    pub fn new(ops: Vec<Op>) -> (r: Program)
        ensures
            r@ == op::op_views(ops@),
    {
        Program { ops }
    }

    /// The instructions.
    pub fn ops(&self) -> (r: &[Op])
        ensures
            op::op_views(r@) == self@,
    {
        self.ops.as_slice()
    }

    /// The number of instructions.
    pub fn len(&self) -> (r: usize)
        ensures
            r == self@.len(),
    {
        self.ops.len()
    }

    /// Whether there are no instructions.
    pub fn is_empty(&self) -> (r: bool)
        ensures
            r == (self@.len() == 0),
    {
        self.ops.len() == 0
    }

    /// The largest number of streams on the stack along the program.
    pub fn stack_depth(&self) -> (r: usize)
        requires
            depths_fit(self@),
        ensures
            r == peak_depth(self@),
    {
        let mut depth: i64 = 0;
        let mut max_depth: i64 = 0;
        let mut i: usize = 0;
        let ghost all = self@;
        assert(all.take(0) =~= Seq::<OpV>::empty());
        while i < self.ops.len()
            invariant
                i <= self.ops@.len(),
                all == op::op_views(self.ops@),
                depths_fit(all),
                depth == depth_after(all.take(i as int)),
                max_depth == peak_depth(all.take(i as int)),
                depth <= i,
                0 <= max_depth <= i,
            decreases self.ops.len() - i,
        {
            let (pop, push) = self.ops[i].stack_effect();
            proof {
                assert(all.take(i + 1).drop_last() =~= all.take(i as int));
                assert(all.take(i + 1).last() == self.ops@[i as int]@);
                assert(all[i as int] == self.ops@[i as int]@);
                assert(depth_after(all.take(i + 1)) <= i64::MAX);
            }
            depth = depth - pop as i64;
            depth = depth + push as i64;
            if depth > max_depth {
                max_depth = depth;
            }
            i = i + 1;
        }
        assert(all.take(i as int) =~= all);
        max_depth as usize
    }
}

// ---------------------------------------------------------------------
// Laws
// ---------------------------------------------------------------------

/// The peak is reached, and never passed: it bounds the depth after every
/// prefix of the program, and is that of one of them.
pub proof fn law_peak_bounds(ops: Seq<OpV>, k: int)
    requires
        0 <= k <= ops.len(),
    ensures
        depth_after(ops.take(k)) <= peak_depth(ops),
        exists|j: int| 0 <= j <= ops.len() && #[trigger] depth_after(ops.take(j)) == peak_depth(
            ops,
        ),
    decreases ops.len(),
{
    if ops.len() == 0 {
        assert(ops.take(k) =~= ops);
        assert(depth_after(ops.take(0)) == peak_depth(ops));
    } else {
        assert(ops.take(ops.len() as int) =~= ops);
        let front = ops.drop_last();
        if k < ops.len() {
            law_peak_bounds(front, k);
            assert(front.take(k) =~= ops.take(k));
        } else {
            law_peak_bounds(front, 0);
        }
        if depth_after(ops) > peak_depth(front) {
            assert(depth_after(ops.take(ops.len() as int)) == peak_depth(ops));
        } else {
            let j = choose|j: int|
                0 <= j <= front.len() && #[trigger] depth_after(front.take(j)) == peak_depth(
                    front,
                );
            assert(front.take(j) =~= ops.take(j));
            assert(depth_after(ops.take(j)) == peak_depth(ops));
        }
    }
}

} // verus!
