//! The ways to consume a compiled comprehension.
pub mod coord_stream;
pub mod polydat_kernel;

use crate::comprehension::ast;
use crate::comprehension::ast::Comprehension;
use crate::comprehension::ir::compile;
use crate::comprehension::ir::dispense;
use crate::comprehension::ir::op::OpV;
use crate::comprehension::ir::program::Program;
use coord_stream::CoordinateStream;
use std::sync::Arc;
use vstd::prelude::*;

verus! {

/// A compiled comprehension. Every stream made from it stands on its own.
pub struct CompiledComprehension {
    program: Arc<Program>,
}

impl View for CompiledComprehension {
    type V = Seq<OpV>;

    closed spec fn view(&self) -> Seq<OpV> {
        self.program@
    }
}

impl CompiledComprehension {
    /// The compiled comprehension of a program.
    pub fn from_program(program: Arc<Program>) -> (r: CompiledComprehension)
        ensures
            r@ == program@,
    {
        CompiledComprehension { program }
    }

    /// The program.
    pub fn program(&self) -> (r: &Program)
        ensures
            r@ == self@,
    {
        &*self.program
    }

    /// A stream of the comprehension's tuples, from the first one on.
    pub fn coordinate_stream(&self) -> (r: CoordinateStream)
        requires
            dispense::complete(self@),
        ensures
            r.ready(),
            r.rest() == dispense::dispensed(self@),
    {
        CoordinateStream::new(&*self.program)
    }
}

/// The compiled form of `c`.
pub fn compile(c: &Comprehension) -> (r: CompiledComprehension)
    ensures
        r@ == compile::compiled(ast::comp_view(*c)),
{
    CompiledComprehension::from_program(Arc::new(compile::compile(c)))
}

} // verus!
