//! The comprehension algebra: clauses and their combinators.
use crate::comprehension::source;
use crate::comprehension::source::{Source, SourceV};
use crate::comprehension::strategy::{StrategyName, ZipMode};
use vstd::prelude::*;

verus! {

/// A comprehension.
#[derive(Debug, PartialEq)]
pub enum Comprehension {
    /// A name bound to the values of a source.
    Clause { name: String, source: Source },
    /// Every combination; the last child varies fastest.
    Cartesian { children: Vec<Comprehension> },
    /// The children side by side.
    Zip { children: Vec<Comprehension>, mode: ZipMode },
    /// The children one after the other.
    Union { children: Vec<Comprehension> },
    /// The tuples of the child for which a condition holds.
    Filter { child: Box<Comprehension>, predicate: String },
    /// The tuples of the child in another order, perhaps cut.
    Order { child: Box<Comprehension>, strategy: StrategyName, truncation: Option<u64> },
}

/// The content of a comprehension.
#[verifier::ext_equal]
pub enum CompV {
    Clause(Seq<char>, SourceV),
    Cartesian(Seq<CompV>),
    Zip(Seq<CompV>, ZipMode),
    Union(Seq<CompV>),
    Filter(Box<CompV>, Seq<char>),
    Order(Box<CompV>, StrategyName, Option<u64>),
}

/// The content of a comprehension.
pub open spec fn comp_view(c: Comprehension) -> CompV
    decreases c, 0nat,
{
    match c {
        Comprehension::Clause { name, source } => CompV::Clause(name@, source@),
        Comprehension::Cartesian { children } => CompV::Cartesian(comp_views(children@)),
        Comprehension::Zip { children, mode } => CompV::Zip(comp_views(children@), mode),
        Comprehension::Union { children } => CompV::Union(comp_views(children@)),
        Comprehension::Filter { child, predicate } => CompV::Filter(
            Box::new(comp_view(*child)),
            predicate@,
        ),
        Comprehension::Order { child, strategy, truncation } => CompV::Order(
            Box::new(comp_view(*child)),
            strategy,
            truncation,
        ),
    }
}

/// The contents of a run of comprehensions.
pub open spec fn comp_views(s: Seq<Comprehension>) -> Seq<CompV>
    decreases s, s.len(),
{
    if s.len() == 0 {
        Seq::empty()
    } else {
        comp_views(s.drop_last()).push(comp_view(s.last()))
    }
}

/// A run of comprehensions has as many contents, each that of its own.
pub proof fn lemma_comp_views(s: Seq<Comprehension>)
    ensures
        comp_views(s).len() == s.len(),
        forall|i: int| 0 <= i < s.len() ==> #[trigger] comp_views(s)[i] == comp_view(s[i]),
    decreases s.len(),
{
    if s.len() > 0 {
        lemma_comp_views(s.drop_last());
    }
}

/// The same comprehensions.
pub fn copy_comprehensions(v: &Vec<Comprehension>) -> (r: Vec<Comprehension>)
    ensures
        comp_views(r@) == comp_views(v@),
    decreases v,
{
    let mut out: Vec<Comprehension> = Vec::new();
    let mut i: usize = 0;
    while i < v.len()
        invariant
            i <= v@.len(),
            out@.len() == i,
            forall|k: int| 0 <= k < i ==> comp_view(#[trigger] out@[k]) == comp_view(v@[k]),
        decreases v.len() - i,
    {
        assert(decreases_to!(v@ => v@[i as int]));
        assert(decreases_to!(*v => v@));
        out.push(v[i].copy());
        i = i + 1;
    }
    proof {
        lemma_comp_views(out@);
        lemma_comp_views(v@);
        assert(comp_views(out@) =~= comp_views(v@));
    }
    out
}

impl Comprehension {
    /// The same comprehension.
    pub fn copy(&self) -> (r: Comprehension)
        ensures
            comp_view(r) == comp_view(*self),
        decreases self,
    {
        match self {
            Comprehension::Clause { name, source } => Comprehension::Clause {
                name: name.clone(),
                source: source.copy(),
            },
            Comprehension::Cartesian { children } => Comprehension::Cartesian {
                children: copy_comprehensions(children),
            },
            Comprehension::Zip { children, mode } => Comprehension::Zip {
                children: copy_comprehensions(children),
                mode: *mode,
            },
            Comprehension::Union { children } => Comprehension::Union {
                children: copy_comprehensions(children),
            },
            Comprehension::Filter { child, predicate } => Comprehension::Filter {
                child: Box::new((&**child).copy()),
                predicate: predicate.clone(),
            },
            Comprehension::Order { child, strategy, truncation } => Comprehension::Order {
                child: Box::new((&**child).copy()),
                strategy: *strategy,
                truncation: *truncation,
            },
        }
    }

    /// A name bound to the values of a source.
    pub fn clause(name: &str, source: Source) -> (r: Comprehension)
        ensures
            comp_view(r) == CompV::Clause(name@, source@),
    {
        Comprehension::Clause { name: name.to_owned(), source }
    }

    /// Every combination of the children.
    pub fn cartesian(children: Vec<Comprehension>) -> (r: Comprehension)
        ensures
            comp_view(r) == CompV::Cartesian(comp_views(children@)),
    {
        Comprehension::Cartesian { children }
    }

    /// The children side by side.
    pub fn zip(children: Vec<Comprehension>, mode: ZipMode) -> (r: Comprehension)
        ensures
            comp_view(r) == CompV::Zip(comp_views(children@), mode),
    {
        Comprehension::Zip { children, mode }
    }

    /// The children one after the other.
    pub fn union(children: Vec<Comprehension>) -> (r: Comprehension)
        ensures
            comp_view(r) == CompV::Union(comp_views(children@)),
    {
        Comprehension::Union { children }
    }

    /// The tuples of `child` for which `predicate` holds.
    pub fn filter(child: Comprehension, predicate: &str) -> (r: Comprehension)
        ensures
            comp_view(r) == CompV::Filter(Box::new(comp_view(child)), predicate@),
    {
        Comprehension::Filter { child: Box::new(child), predicate: predicate.to_owned() }
    }

    /// The tuples of `child` in another order, perhaps cut.
    pub fn order(child: Comprehension, strategy: StrategyName, truncation: Option<u64>) -> (r:
        Comprehension)
        ensures
            comp_view(r) == CompV::Order(Box::new(comp_view(child)), strategy, truncation),
    {
        Comprehension::Order { child: Box::new(child), strategy, truncation }
    }
}

impl Clone for Comprehension {
    fn clone(&self) -> (r: Comprehension)
        ensures
            comp_view(r) == comp_view(*self),
    {
        self.copy()
    }
}

} // verus!
