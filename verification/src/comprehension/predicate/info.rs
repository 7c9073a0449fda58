//! The structured analysis of one predicate.
use crate::float::Float64;
use vstd::prelude::*;

verus! {

/// What is known of a predicate.
#[derive(Debug, PartialEq)]
pub struct PredicateInfo {
    /// How the predicate decomposes by coordinate.
    pub factorization: Factorization,
    /// The direction of truth along an axis.
    pub monotonicity: PerAxisMap<Monotonicity>,
    /// The bounds that the predicate puts on an axis.
    pub range_constraint: PerAxisMap<RangeConstraint>,
    /// Whether equal coordinates give equal answers.
    pub determinism: Determinism,
    /// The names in `{name}` references.
    pub coords_referenced: Vec<String>,
}

/// How a predicate decomposes by coordinate.
#[derive(Debug, PartialEq)]
pub enum Factorization {
    /// A conjunction of one sub-predicate for each axis.
    PerAxis(PerAxisMap<String>),
    /// A conjunction whose parts may span axes.
    Conjunctive(Vec<String>),
    /// A disjunction.
    Disjunctive(Vec<String>),
    /// No decomposition is known.
    Opaque(OpaqueReason),
}

/// Why a predicate has no known decomposition.
#[derive(Clone, Copy, Debug, PartialEq, Eq, Structural)]
pub enum OpaqueReason {
    UnknownPattern,
    NonDeterministic,
    CrossTupleState,
    SideEffecting,
    Continuous,
}

/// The direction of truth along an axis.
#[derive(Clone, Copy, Debug, PartialEq, Eq, Structural)]
pub enum Monotonicity {
    Increasing,
    Decreasing,
    Neither,
}

/// A bound on an axis.
#[derive(Debug, PartialEq)]
pub enum RangeConstraint {
    /// `lo` to `hi`.
    Bounded {
        lo: Option<ConstValue>,
        hi: Option<ConstValue>,
        lo_inclusive: bool,
        hi_inclusive: bool,
    },
    /// One of these.
    Discrete(Vec<ConstValue>),
    /// No bound.
    Unconstrained,
}

/// Whether a predicate is referentially transparent.
#[derive(Clone, Copy, Debug, PartialEq, Eq, Structural)]
pub enum Determinism {
    Deterministic,
    Opaque,
}

/// A constant in a bound.
#[derive(Clone, Debug, PartialEq)]
pub enum ConstValue {
    Int(i64),
    Float(Float64),
    String(String),
    Bool(bool),
}

/// A map from coordinate names that keeps the order of insertion.
#[derive(Debug, PartialEq)]
pub struct PerAxisMap<T> {
    entries: Vec<(String, T)>,
}

/// The position of `key`.
pub open spec fn position<T>(s: Seq<(Seq<char>, T)>, key: Seq<char>) -> Option<int>
    decreases s.len(),
{
    if s.len() == 0 {
        None
    } else if s[0].0 == key {
        Some(0)
    } else {
        match position(s.drop_first(), key) {
            Some(i) => Some(i + 1),
            None => None,
        }
    }
}

/// The entries with `key` set to `value`: in its place where it is there,
/// at the end where it is not.
pub open spec fn inserted<T>(s: Seq<(Seq<char>, T)>, key: Seq<char>, value: T) -> Seq<
    (Seq<char>, T),
> {
    match position(s, key) {
        Some(i) => s.update(i, (key, value)),
        None => s.push((key, value)),
    }
}

/// No key occurs twice.
pub open spec fn distinct_keys<T>(s: Seq<(Seq<char>, T)>) -> bool {
    forall|i: int, j: int| 0 <= i < j < s.len() ==> (#[trigger] s[i]).0 != (#[trigger] s[j]).0
}

impl<T> View for PerAxisMap<T> {
    type V = Seq<(Seq<char>, T)>;

    closed spec fn view(&self) -> Seq<(Seq<char>, T)> {
        Seq::new(self.entries@.len(), |i: int| (self.entries@[i].0@, self.entries@[i].1))
    }
}

/// `position` gives the first place that holds the key, if one does.
pub proof fn lemma_position<T>(s: Seq<(Seq<char>, T)>, key: Seq<char>)
    ensures
        match position(s, key) {
            Some(i) => 0 <= i < s.len() && s[i].0 == key && forall|k: int|
                0 <= k < i ==> (#[trigger] s[k]).0 != key,
            None => forall|k: int| 0 <= k < s.len() ==> (#[trigger] s[k]).0 != key,
        },
    decreases s.len(),
{
    if s.len() > 0 && s[0].0 != key {
        let t = s.drop_first();
        lemma_position(t, key);
        assert forall|k: int|
            0 <= k < s.len() && (position(t, key) matches Some(i) ==> k < i + 1) implies (
        #[trigger] s[k]).0 != key by {
            if k > 0 {
                assert(t[k - 1] == s[k]);
            }
        }
    }
}

/// The position is the first place that holds the key.
proof fn lemma_position_is<T>(s: Seq<(Seq<char>, T)>, key: Seq<char>, at: int)
    requires
        0 <= at < s.len(),
        s[at].0 == key,
        forall|k: int| 0 <= k < at ==> (#[trigger] s[k]).0 != key,
    ensures
        position(s, key) == Some(at),
{
    lemma_position(s, key);
    match position(s, key) {
        Some(i) => {
            if i < at {
                assert(s[i].0 != key);
            }
            if at < i {
                assert(s[at].0 != key);
            }
        },
        None => {
            assert(s[at].0 != key);
        },
    }
}

impl<T> PerAxisMap<T> {
    /// No entries.
    pub fn new() -> (r: Self)
        ensures
            r@ == Seq::<(Seq<char>, T)>::empty(),
    {
        let r = PerAxisMap { entries: Vec::new() };
        assert(r@ =~= Seq::<(Seq<char>, T)>::empty());
        r
    }

    fn find(&self, key: &str) -> (r: Option<usize>)
        ensures
            match r {
                Some(i) => i < self.entries@.len() && position(self@, key@) == Some(i as int),
                None => position(self@, key@) is None,
            },
    {
        let mut i: usize = 0;
        while i < self.entries.len()
            invariant
                i <= self.entries.len(),
                forall|k: int| 0 <= k < i ==> (#[trigger] self@[k]).0 != key@,
            decreases self.entries.len() - i,
        {
            if *self.entries[i].0.as_str() == *key {
                proof {
                    lemma_position_is(self@, key@, i as int);
                }
                return Some(i);
            }
            i = i + 1;
        }
        proof {
            lemma_position(self@, key@);
        }
        None
    }

    /// Set `key` to `value`; a key that is there keeps its place.
    pub fn insert(&mut self, key: &str, value: T)
        ensures
            final(self)@ == inserted(old(self)@, key@, value),
    {
        match self.find(key) {
            Some(i) => {
                self.entries.set(i, (key.to_owned(), value));
            },
            None => {
                self.entries.push((key.to_owned(), value));
            },
        }
        assert(self@ =~= inserted(old(self)@, key@, value));
    }

    /// The value of `key`.
    pub fn get(&self, key: &str) -> (r: Option<&T>)
        ensures
            match position(self@, key@) {
                Some(i) => r == Some(&self@[i].1),
                None => r is None,
            },
    {
        match self.find(key) {
            Some(i) => Some(&self.entries[i].1),
            None => None,
        }
    }

    /// The entries, in order.
    pub fn iter(&self) -> (r: Vec<(&str, &T)>)
        ensures
            r@.len() == self@.len(),
            forall|i: int|
                0 <= i < r@.len() ==> ((#[trigger] r@[i]).0@, *r@[i].1) == self@[i],
    {
        let mut out: Vec<(&str, &T)> = Vec::new();
        let mut i: usize = 0;
        while i < self.entries.len()
            invariant
                i <= self.entries.len(),
                out.len() == i,
                forall|k: int| 0 <= k < i ==> ((#[trigger] out@[k]).0@, *out@[k].1) == self@[k],
            decreases self.entries.len() - i,
        {
            let e: &(String, T) = &self.entries[i];
            out.push((e.0.as_str(), &e.1));
            i = i + 1;
        }
        out
    }

    /// How many entries there are.
    pub fn len(&self) -> (r: usize)
        ensures
            r == self@.len(),
    {
        self.entries.len()
    }

    /// Whether there are none.
    pub fn is_empty(&self) -> (r: bool)
        ensures
            r == (self@.len() == 0),
    {
        self.entries.len() == 0
    }

    /// The keys, in order.
    pub fn keys(&self) -> (r: Vec<&str>)
        ensures
            r@.len() == self@.len(),
            forall|i: int| 0 <= i < r@.len() ==> (#[trigger] r@[i])@ == self@[i].0,
    {
        let mut out: Vec<&str> = Vec::new();
        let mut i: usize = 0;
        while i < self.entries.len()
            invariant
                i <= self.entries.len(),
                out.len() == i,
                forall|k: int| 0 <= k < i ==> (#[trigger] out@[k])@ == self@[k].0,
            decreases self.entries.len() - i,
        {
            out.push(self.entries[i].0.as_str());
            i = i + 1;
        }
        out
    }

    /// The map that inserting `entries` one after the other gives.
    pub fn from_entries(entries: Vec<(String, T)>) -> (r: Self)
        ensures
            r@ == entries@.fold_left(
                Seq::<(Seq<char>, T)>::empty(),
                |m: Seq<(Seq<char>, T)>, e: (String, T)| inserted(m, e.0@, e.1),
            ),
    {
        let mut rest: Vec<(String, T)> = entries;
        let ghost step = |m: Seq<(Seq<char>, T)>, e: (String, T)| inserted(m, e.0@, e.1);
        let ghost all = rest@;
        let mut r = PerAxisMap::new();
        let mut i: usize = 0;
        let n: usize = rest.len();
        assert(all.take(0) =~= Seq::<(String, T)>::empty());
        while i < n
            invariant
                i <= n,
                n == all.len(),
                rest@ == all.subrange(i as int, n as int),
                step == (|m: Seq<(Seq<char>, T)>, e: (String, T)| inserted(m, e.0@, e.1)),
                r@ == all.take(i as int).fold_left(Seq::<(Seq<char>, T)>::empty(), step),
            decreases n - i,
        {
            let e: (String, T) = rest.remove(0);
            let ghost e0 = e;
            r.insert(e.0.as_str(), e.1);
            i = i + 1;
            assert(all.take(i as int).drop_last() =~= all.take(i - 1));
            assert(all.take(i as int).last() == e0);
        }
        assert(all.take(n as int) =~= all);
        r
    }
}

impl<T> Default for PerAxisMap<T> {
    fn default() -> (r: Self)
        ensures
            r@ == Seq::<(Seq<char>, T)>::empty(),
    {
        PerAxisMap::new()
    }
}

/// After `insert`, `get` of the key gives the value, `get` of another key
/// gives what it gave before, every key that was there keeps its place,
/// and no key occurs twice where none did.
pub proof fn law_insert_then_get<T>(s: Seq<(Seq<char>, T)>, key: Seq<char>, value: T)
    ensures
        position(inserted(s, key, value), key) matches Some(i) && inserted(s, key, value)[i].1
            == value,
        forall|other: Seq<char>|
            other != key ==> #[trigger] position(inserted(s, key, value), other) == position(
                s,
                other,
            ),
        forall|k: int| 0 <= k < s.len() ==> (#[trigger] inserted(s, key, value)[k]).0 == s[k].0,
        distinct_keys(s) ==> distinct_keys(inserted(s, key, value)),
{
    lemma_position(s, key);
    let t = inserted(s, key, value);
    match position(s, key) {
        Some(i) => {
            assert forall|k: int| 0 <= k < i implies (#[trigger] t[k]).0 != key by {
                assert(s[k].0 != key);
            }
            lemma_position_is(t, key, i);
        },
        None => {
            assert forall|k: int| 0 <= k < s.len() implies (#[trigger] t[k]).0 != key by {
                assert(s[k].0 != key);
            }
            lemma_position_is(t, key, s.len() as int);
        },
    }
    assert forall|other: Seq<char>| other != key implies #[trigger] position(t, other) == position(
        s,
        other,
    ) by {
        lemma_position(s, other);
        lemma_position(t, other);
        match position(s, other) {
            Some(i) => {
                assert forall|k: int| 0 <= k < i implies (#[trigger] t[k]).0 != other by {
                    assert(s[k].0 != other);
                }
                lemma_position_is(t, other, i);
            },
            None => {
                match position(t, other) {
                    Some(j) => {
                        if j < s.len() {
                            assert(s[j].0 != other);
                        }
                    },
                    None => {},
                }
            },
        }
    }
    if distinct_keys(s) {
        assert forall|i: int, j: int| 0 <= i < j < t.len() implies (#[trigger] t[i]).0 != (
        #[trigger] t[j]).0 by {
            if j < s.len() {
                assert(s[i].0 != s[j].0);
            } else {
                assert(s[i].0 != key);
            }
        }
    }
}

} // verus!
