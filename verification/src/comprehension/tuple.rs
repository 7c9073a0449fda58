//! Tuples: named values, in coordinate order.
use crate::float::Float64;
use vstd::prelude::*;

verus! {

/// A value in a tuple.
#[derive(Debug, PartialEq)]
pub enum TupleValue {
    U64(u64),
    I64(i64),
    F64(Float64),
    Str(String),
    Bool(bool),
}

/// The content of a value in a tuple.
#[verifier::ext_equal]
pub enum TupleValueV {
    U64(u64),
    I64(i64),
    F64(Float64),
    Str(Seq<char>),
    Bool(bool),
}

/// The content of a tuple.
pub type TupleV = Seq<(Seq<char>, TupleValueV)>;

impl View for TupleValue {
    type V = TupleValueV;

    open spec fn view(&self) -> TupleValueV {
        match *self {
            TupleValue::U64(n) => TupleValueV::U64(n),
            TupleValue::I64(n) => TupleValueV::I64(n),
            TupleValue::F64(x) => TupleValueV::F64(x),
            TupleValue::Str(s) => TupleValueV::Str(s@),
            TupleValue::Bool(b) => TupleValueV::Bool(b),
        }
    }
}

impl Clone for TupleValue {
    fn clone(&self) -> (r: TupleValue)
        ensures
            r@ == self@,
    {
        match self {
            TupleValue::U64(n) => TupleValue::U64(*n),
            TupleValue::I64(n) => TupleValue::I64(*n),
            TupleValue::F64(x) => TupleValue::F64(*x),
            TupleValue::Str(s) => TupleValue::Str(s.clone()),
            TupleValue::Bool(b) => TupleValue::Bool(*b),
        }
    }
}

/// Named values, in coordinate order.
#[derive(Debug, PartialEq)]
pub struct Tuple {
    pub bindings: Vec<(String, TupleValue)>,
}

impl View for Tuple {
    type V = TupleV;

    open spec fn view(&self) -> TupleV {
        Seq::new(self.bindings@.len(), |i: int| (self.bindings@[i].0@, self.bindings@[i].1@))
    }
}

/// The contents of a run of tuples.
pub open spec fn tuple_views(s: Seq<Tuple>) -> Seq<TupleV> {
    Seq::new(s.len(), |i: int| s[i]@)
}

impl Tuple {
    /// No bindings.
    pub fn new() -> (r: Tuple)
        ensures
            r@ == Seq::<(Seq<char>, TupleValueV)>::empty(),
    {
        let r = Tuple { bindings: Vec::new() };
        assert(r@ =~= Seq::<(Seq<char>, TupleValueV)>::empty());
        r
    }

    /// The tuple with one more binding at the end.
    pub fn with(self, name: &str, value: TupleValue) -> (r: Tuple)
        ensures
            r@ == self@.push((name@, value@)),
    {
        let mut bindings: Vec<(String, TupleValue)> = self.bindings;
        bindings.push((name.to_owned(), value));
        let r = Tuple { bindings };
        assert(r@ =~= self@.push((name@, value@)));
        r
    }

    /// Add the bindings of `other` at the end.
    pub fn extend(&mut self, other: &Tuple)
        ensures
            final(self)@ == old(self)@ + other@,
    {
        let mut i: usize = 0;
        assert(self@ =~= old(self)@ + other@.take(0));
        while i < other.bindings.len()
            invariant
                i <= other.bindings@.len(),
                self@ == old(self)@ + other@.take(i as int),
            decreases other.bindings.len() - i,
        {
            let ghost before = self.bindings@;
            let b: &(String, TupleValue) = &other.bindings[i];
            let name: String = b.0.clone();
            let value: TupleValue = b.1.clone();
            let ghost pair = (name@, value@);
            self.bindings.push((name, value));
            i = i + 1;
            assert(self@ =~= (old(self)@ + other@.take(i - 1)).push(pair)) by {
                assert forall|k: int| 0 <= k < before.len() implies self@[k] == (
                    before[k].0@,
                    before[k].1@,
                ) by {}
            }
            assert(self@ =~= old(self)@ + other@.take(i as int));
        }
        assert(other@.take(i as int) =~= other@);
    }
}

impl Clone for Tuple {
    fn clone(&self) -> (r: Tuple)
        ensures
            r@ == self@,
    {
        let mut r: Tuple = Tuple::new();
        r.extend(self);
        assert(r@ =~= self@);
        r
    }
}

/// The first `n` tuples, or all where there are fewer.
pub fn copy_prefix(tuples: &Vec<Tuple>, n: u64) -> (r: Vec<Tuple>)
    ensures
        tuple_views(r@) == crate::comprehension::strategies::lattice::prefix_of(
            tuple_views(tuples@),
            n as nat,
        ),
{
    let mut out: Vec<Tuple> = Vec::new();
    let mut i: usize = 0;
    assert(tuple_views(out@) =~= tuple_views(tuples@).take(0));
    while i < tuples.len() && (i as u64) < n
        invariant
            i <= tuples@.len(),
            i <= n,
            tuple_views(out@) == tuple_views(tuples@).take(i as int),
        decreases tuples.len() - i,
    {
        let ghost before = out@;
        let t: Tuple = tuples[i].clone();
        let ghost tv = t@;
        out.push(t);
        i = i + 1;
        assert(tuple_views(out@) =~= tuple_views(before).push(tv));
        assert(tuple_views(out@) =~= tuple_views(tuples@).take(i as int));
    }
    assert(tuple_views(tuples@).take(tuples@.len() as int) =~= tuple_views(tuples@));
    out
}

/// The same tuples.
pub fn copy_tuples(tuples: &Vec<Tuple>) -> (r: Vec<Tuple>)
    ensures
        tuple_views(r@) == tuple_views(tuples@),
{
    assert(tuple_views(tuples@).take(tuples@.len() as int) =~= tuple_views(tuples@));
    copy_prefix(tuples, tuples.len() as u64)
}

} // verus!
