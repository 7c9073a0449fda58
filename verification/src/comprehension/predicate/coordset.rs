//! Coordinate names with their discrete or continuous classification.
use crate::comprehension::metadata::{IndexFn, IndexFnV, Metadata};
use vstd::prelude::*;

verus! {

/// Whether a coordinate is enumerated or sampled.
#[derive(Clone, Copy, Debug, PartialEq, Eq, Structural)]
pub enum CoordKind {
    Discrete,
    Continuous,
}

/// A coordinate's name and kind.
#[derive(Clone, Debug, PartialEq)]
pub struct CoordInfo {
    pub name: String,
    pub kind: CoordKind,
}

/// Coordinates in declaration order.
#[derive(Debug, PartialEq)]
pub struct CoordSet {
    coords: Vec<CoordInfo>,
}

/// The position of the first coordinate called `name`.
pub open spec fn first_named(s: Seq<(Seq<char>, CoordKind)>, name: Seq<char>) -> Option<int>
    decreases s.len(),
{
    if s.len() == 0 {
        None
    } else if s[0].0 == name {
        Some(0)
    } else {
        match first_named(s.drop_first(), name) {
            Some(i) => Some(i + 1),
            None => None,
        }
    }
}

/// `n` times the same kind.
pub open spec fn kinds(kind: CoordKind, n: nat) -> Seq<CoordKind> {
    Seq::new(n, |i: int| kind)
}

/// The kinds of the axes of an addressing scheme. Where the scheme does
/// not say how many axes there are, `expected` of them are discrete.
pub open spec fn axis_kinds(idx: Option<IndexFnV>, expected: nat) -> Seq<CoordKind> {
    match idx {
        Some(IndexFnV::Lattice(sizes)) => kinds(CoordKind::Discrete, sizes.len()),
        Some(IndexFnV::Continuous(intervals, _)) => kinds(CoordKind::Continuous, intervals.len()),
        Some(IndexFnV::Hybrid(discrete, continuous, _)) => kinds(
            CoordKind::Discrete,
            discrete.len(),
        ) + kinds(CoordKind::Continuous, continuous.len()),
        _ => kinds(CoordKind::Discrete, expected),
    }
}

/// The content of an optional addressing scheme.
pub open spec fn idx_view(idx: Option<IndexFn>) -> Option<IndexFnV> {
    match idx {
        Some(i) => Some(i@),
        None => None,
    }
}

impl View for CoordSet {
    type V = Seq<(Seq<char>, CoordKind)>;

    closed spec fn view(&self) -> Seq<(Seq<char>, CoordKind)> {
        Seq::new(self.coords@.len(), |i: int| (self.coords@[i].name@, self.coords@[i].kind))
    }
}

proof fn lemma_first_named(s: Seq<(Seq<char>, CoordKind)>, name: Seq<char>, at: int)
    requires
        0 <= at < s.len(),
        s[at].0 == name,
        forall|k: int| 0 <= k < at ==> (#[trigger] s[k]).0 != name,
    ensures
        first_named(s, name) == Some(at),
    decreases at,
{
    if at > 0 {
        assert(s[0].0 != name);
        assert forall|k: int| 0 <= k < at - 1 implies (#[trigger] s.drop_first()[k]).0 != name by {
            assert(s[k + 1].0 != name);
        }
        lemma_first_named(s.drop_first(), name, at - 1);
    }
}

proof fn lemma_none_named(s: Seq<(Seq<char>, CoordKind)>, name: Seq<char>)
    requires
        forall|k: int| 0 <= k < s.len() ==> (#[trigger] s[k]).0 != name,
    ensures
        first_named(s, name) is None,
    decreases s.len(),
{
    if s.len() > 0 {
        assert(s[0].0 != name);
        assert forall|k: int| 0 <= k < s.drop_first().len() implies (
        #[trigger] s.drop_first()[k]).0 != name by {
            assert(s[k + 1].0 != name);
        }
        lemma_none_named(s.drop_first(), name);
    }
}

impl CoordSet {
    /// No coordinates.
    pub fn new() -> (r: Self)
        ensures
            r@ == Seq::<(Seq<char>, CoordKind)>::empty(),
    {
        let r = CoordSet { coords: Vec::new() };
        assert(r@ =~= Seq::<(Seq<char>, CoordKind)>::empty());
        r
    }

    /// Add a coordinate at the end.
    pub fn push(&mut self, info: CoordInfo)
        ensures
            final(self)@ == old(self)@.push((info.name@, info.kind)),
    {
        self.coords.push(info);
        assert(self@ =~= old(self)@.push((info.name@, info.kind)));
    }

    /// Discrete coordinates with these names.
    pub fn all_discrete(names: &[&str]) -> (r: Self)
        ensures
            r@ == Seq::new(names@.len(), |i: int| (names@[i]@, CoordKind::Discrete)),
    {
        let mut r = CoordSet::new();
        let mut i: usize = 0;
        while i < names.len()
            invariant
                i <= names.len(),
                r@ =~= Seq::new(i as nat, |k: int| (names@[k]@, CoordKind::Discrete)),
            decreases names.len() - i,
        {
            r.push(CoordInfo { name: names[i].to_owned(), kind: CoordKind::Discrete });
            i = i + 1;
        }
        r
    }

    /// The coordinates of a comprehension, each with the kind that its
    /// metadata gives the axis.
    pub fn from_metadata(coord_names: &[String], metadata: &Metadata) -> (r: Self)
        ensures
            ({
                let kinds = axis_kinds(
                    idx_view(metadata.index_addressable),
                    coord_names@.len(),
                );
                let n = if coord_names@.len() <= kinds.len() {
                    coord_names@.len()
                } else {
                    kinds.len()
                };
                r@ == Seq::new(n, |i: int| (coord_names@[i]@, kinds[i]))
            }),
    {
        let kinds: Vec<CoordKind> = classify_axes(
            metadata.index_addressable.as_ref(),
            coord_names.len(),
        );
        let mut r = CoordSet::new();
        let mut i: usize = 0;
        while i < coord_names.len() && i < kinds.len()
            invariant
                i <= coord_names.len(),
                i <= kinds.len(),
                r@ =~= Seq::new(i as nat, |k: int| (coord_names@[k]@, kinds@[k])),
            decreases coord_names.len() - i,
        {
            r.push(CoordInfo { name: coord_names[i].clone(), kind: kinds[i] });
            i = i + 1;
        }
        r
    }

    /// The coordinates, in order.
    pub fn iter(&self) -> (r: &[CoordInfo])
        ensures
            r@.len() == self@.len(),
            forall|i: int|
                0 <= i < r@.len() ==> ((#[trigger] r@[i]).name@, r@[i].kind) == self@[i],
    {
        self.coords.as_slice()
    }

    /// The coordinate names, in order.
    pub fn names(&self) -> (r: Vec<&str>)
        ensures
            r@.len() == self@.len(),
            forall|i: int| 0 <= i < r@.len() ==> (#[trigger] r@[i])@ == self@[i].0,
    {
        let mut out: Vec<&str> = Vec::new();
        let mut i: usize = 0;
        while i < self.coords.len()
            invariant
                i <= self.coords.len(),
                out.len() == i,
                forall|k: int| 0 <= k < i ==> (#[trigger] out@[k])@ == self@[k].0,
            decreases self.coords.len() - i,
        {
            out.push(self.coords[i].name.as_str());
            i = i + 1;
        }
        out
    }

    /// The first coordinate called `name`.
    pub fn get(&self, name: &str) -> (r: Option<&CoordInfo>)
        ensures
            match first_named(self@, name@) {
                Some(i) => 0 <= i < self@.len() && (r matches Some(c) && (c.name@, c.kind)
                    == self@[i]),
                None => r is None,
            },
    {
        let mut i: usize = 0;
        while i < self.coords.len()
            invariant
                i <= self.coords.len(),
                forall|k: int| 0 <= k < i ==> (#[trigger] self@[k]).0 != name@,
            decreases self.coords.len() - i,
        {
            if *self.coords[i].name.as_str() == *name {
                proof {
                    lemma_first_named(self@, name@, i as int);
                }
                return Some(&self.coords[i]);
            }
            i = i + 1;
        }
        proof {
            lemma_none_named(self@, name@);
        }
        None
    }

    /// Whether the first coordinate called `name` is continuous.
    pub fn is_continuous(&self, name: &str) -> (r: bool)
        ensures
            r == (first_named(self@, name@) matches Some(i) && self@[i].1 is Continuous),
    {
        match self.get(name) {
            Some(c) => matches!(c.kind, CoordKind::Continuous),
            None => false,
        }
    }

    /// Whether a coordinate is called `name`.
    pub fn contains(&self, name: &str) -> (r: bool)
        ensures
            r == (first_named(self@, name@) is Some),
    {
        self.get(name).is_some()
    }

    /// How many coordinates there are.
    pub fn len(&self) -> (r: usize)
        ensures
            r == self@.len(),
    {
        self.coords.len()
    }

    /// Whether there are none.
    pub fn is_empty(&self) -> (r: bool)
        ensures
            r == (self@.len() == 0),
    {
        self.coords.len() == 0
    }
}

impl Default for CoordSet {
    fn default() -> (r: Self)
        ensures
            r@ == Seq::<(Seq<char>, CoordKind)>::empty(),
    {
        CoordSet::new()
    }
}

/// Add `n` times `kind`.
fn push_kinds(out: &mut Vec<CoordKind>, kind: CoordKind, n: usize)
    ensures
        final(out)@ == old(out)@ + kinds(kind, n as nat),
{
    let mut i: usize = 0;
    assert(out@ =~= old(out)@ + kinds(kind, 0));
    while i < n
        invariant
            i <= n,
            out@ == old(out)@ + kinds(kind, i as nat),
        decreases n - i,
    {
        out.push(kind);
        i = i + 1;
        assert(out@ =~= old(out)@ + kinds(kind, i as nat));
    }
}

/// The kind of each axis.
fn classify_axes(idx: Option<&IndexFn>, expected_count: usize) -> (r: Vec<CoordKind>)
    ensures
        r@ == axis_kinds(
            match idx {
                Some(i) => Some(i@),
                None => None,
            },
            expected_count as nat,
        ),
{
    let mut out: Vec<CoordKind> = Vec::new();
    match idx {
        Some(IndexFn::Lattice { axis_sizes }) => {
            push_kinds(&mut out, CoordKind::Discrete, axis_sizes.len());
        },
        Some(IndexFn::Continuous { intervals, .. }) => {
            push_kinds(&mut out, CoordKind::Continuous, intervals.len());
        },
        Some(IndexFn::Hybrid { discrete_axes, continuous_axes, .. }) => {
            push_kinds(&mut out, CoordKind::Discrete, discrete_axes.len());
            push_kinds(&mut out, CoordKind::Continuous, continuous_axes.len());
        },
        _ => {
            push_kinds(&mut out, CoordKind::Discrete, expected_count);
        },
    }
    assert(Seq::<CoordKind>::empty() + kinds(CoordKind::Discrete, expected_count as nat) =~= kinds(
        CoordKind::Discrete,
        expected_count as nat,
    ));
    assert(out@ =~= axis_kinds(
        match idx {
            Some(i) => Some(i@),
            None => None,
        },
        expected_count as nat,
    ));
    out
}

} // verus!
