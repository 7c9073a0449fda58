//! A stream of a comprehension's tuples.
use crate::comprehension::ir::dispense;
use crate::comprehension::ir::interpreter;
use crate::comprehension::ir::interpreter::{Stream, TupleStream};
use crate::comprehension::ir::program::Program;
use crate::comprehension::tuple;
use crate::comprehension::tuple::{Tuple, TupleV};
use vstd::prelude::*;

verus! {

/// A stream of a comprehension's tuples.
pub struct CoordinateStream {
    stream: Stream,
}

impl CoordinateStream {
    /// Whether the stream can go on.
    pub closed spec fn ready(self) -> bool {
        self.stream.ready()
    }

    /// The tuples that are still to come.
    pub closed spec fn rest(self) -> Seq<TupleV> {
        self.stream.rest()
    }

    /// The stream of what `program` dispenses.
    pub fn new(program: &Program) -> (r: CoordinateStream)
        requires
            dispense::complete(program@),
        ensures
            r.ready(),
            r.rest() == dispense::dispensed(program@),
    {
        CoordinateStream { stream: interpreter::interpret(program) }
    }

    /// The next tuple; `None` once there are no more.
    pub fn advance(&mut self) -> (r: Option<Tuple>)
        requires
            old(self).ready(),
        ensures
            final(self).ready(),
            match r {
                Some(t) => old(self).rest().len() > 0 && t@ == old(self).rest()[0]
                    && final(self).rest() == old(self).rest().drop_first(),
                None => old(self).rest().len() == 0 && final(self).rest().len() == 0,
            },
    {
        self.stream.advance()
    }

    /// All the tuples that are still to come.
    pub fn collect(&mut self) -> (r: Vec<Tuple>)
        requires
            old(self).ready(),
        ensures
            tuple::tuple_views(r@) == old(self).rest(),
            final(self).ready(),
            final(self).rest().len() == 0,
    {
        self.stream.collect()
    }
}

} // verus!
