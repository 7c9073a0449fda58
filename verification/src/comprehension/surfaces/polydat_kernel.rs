//! Tuples as the bindings of a scope, and the kernels between which a
//! scope stands.
use crate::comprehension::tuple::{Tuple, TupleV, TupleValue, TupleValueV};
use crate::value::{Datum, DatumV};
use std::sync::Arc;
use vstd::prelude::*;

verus! {

/// The kernels that a scope is made from: the prototype of a comprehension
/// and the kernel around it.
pub struct PolydatKernelScope<K> {
    canonical: Arc<K>,
    parent: Arc<K>,
}

impl<K> PolydatKernelScope<K> {
    /// The prototype kernel.
    pub closed spec fn prototype(self) -> Arc<K> {
        self.canonical
    }

    /// The kernel around the comprehension.
    pub closed spec fn around(self) -> Arc<K> {
        self.parent
    }

    /// The scope between a prototype and the kernel around it.
    pub fn new(canonical: Arc<K>, parent: Arc<K>) -> (r: PolydatKernelScope<K>)
        ensures
            r.prototype() == canonical,
            r.around() == parent,
    {
        PolydatKernelScope { canonical, parent }
    }

    /// The prototype kernel.
    pub fn canonical(&self) -> (r: &Arc<K>)
        ensures
            *r == self.prototype(),
    {
        &self.canonical
    }

    /// The kernel around the comprehension.
    pub fn parent(&self) -> (r: &Arc<K>)
        ensures
            *r == self.around(),
    {
        &self.parent
    }
}

/// The value of a tuple value. A signed integer is carried unsigned, by its
/// bits.
pub open spec fn value_of(v: TupleValueV) -> DatumV {
    match v {
        TupleValueV::U64(n) => DatumV::U64(n),
        TupleValueV::I64(n) => DatumV::U64(n as u64),
        TupleValueV::F64(x) => DatumV::F64(x),
        TupleValueV::Str(s) => DatumV::Str(s),
        TupleValueV::Bool(b) => DatumV::Bool(b),
    }
}

/// The tuple value of a value that has one.
pub open spec fn tuple_value_of(v: DatumV) -> Option<TupleValueV> {
    match v {
        DatumV::U64(n) => Some(TupleValueV::U64(n)),
        DatumV::F64(x) => Some(TupleValueV::F64(x)),
        DatumV::Bool(b) => Some(TupleValueV::Bool(b)),
        DatumV::Str(s) => Some(TupleValueV::Str(s)),
        _ => None,
    }
}

/// The value of `val`.
pub fn tuple_value_to_polydat_value(val: &TupleValue) -> (r: Datum)
    ensures
        r@ == value_of(val@),
{
    match val {
        TupleValue::U64(n) => Datum::U64(*n),
        TupleValue::I64(n) => Datum::U64(*n as u64),
        TupleValue::F64(x) => Datum::F64(*x),
        TupleValue::Str(s) => Datum::Str(s.clone()),
        TupleValue::Bool(b) => Datum::Bool(*b),
    }
}

/// The tuple value of `val`, where it has one.
pub fn polydat_value_to_tuple_value(val: &Datum) -> (r: Option<TupleValue>)
    ensures
        match (r, tuple_value_of(val@)) {
            (Some(t), Some(want)) => t@ == want,
            (None, None) => true,
            _ => false,
        },
{
    match val {
        Datum::U64(n) => Some(TupleValue::U64(*n)),
        Datum::F64(x) => Some(TupleValue::F64(*x)),
        Datum::Bool(b) => Some(TupleValue::Bool(*b)),
        Datum::Str(s) => Some(TupleValue::Str(s.clone())),
        _ => None,
    }
}

/// The bindings that a scope gets from a tuple.
pub open spec fn scope_bindings(t: TupleV) -> Seq<(Seq<char>, DatumV)> {
    t.map_values(|b: (Seq<char>, TupleValueV)| (b.0, value_of(b.1)))
}

/// The contents of a run of bindings.
pub open spec fn binding_views(s: Seq<(String, Datum)>) -> Seq<(Seq<char>, DatumV)> {
    Seq::new(s.len(), |i: int| (s[i].0@, s[i].1@))
}

/// The bindings that a scope gets from `coords`.
pub fn bindings_of(coords: &Tuple) -> (r: Vec<(String, Datum)>)
    ensures
        binding_views(r@) == scope_bindings(coords@),
{
    let mut out: Vec<(String, Datum)> = Vec::new();
    let mut i: usize = 0;
    while i < coords.bindings.len()
        invariant
            i <= coords.bindings@.len(),
            out@.len() == i,
            forall|k: int|
                0 <= k < i ==> (#[trigger] out@[k]).0@ == coords.bindings@[k].0@ && out@[k].1@
                    == value_of(coords.bindings@[k].1@),
        decreases coords.bindings.len() - i,
    {
        let name: String = coords.bindings[i].0.clone();
        let v: Datum = tuple_value_to_polydat_value(&coords.bindings[i].1);
        out.push((name, v));
        i = i + 1;
    }
    assert(binding_views(out@) =~= scope_bindings(coords@));
    out
}

/// A tuple value other than a signed integer comes back from its value.
pub proof fn law_value_round_trip(v: TupleValueV)
    requires
        !(v is I64),
    ensures
        tuple_value_of(value_of(v)) == Some(v),
{
}

/// A value that has a tuple value comes back from it.
pub proof fn law_tuple_value_round_trip(v: DatumV)
    ensures
        tuple_value_of(v) matches Some(t) ==> value_of(t) == v,
{
}

} // verus!
