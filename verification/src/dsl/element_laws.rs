//! What is gathered from the comprehension behind a projection, over the
//! clauses that stand in it.
use crate::comprehension::ast::CompV;
use crate::comprehension::source::SourceV;
use crate::dsl::tile_kit;
use crate::dsl::tile_lower::Reach;
use crate::dsl::tile_source;
use vstd::prelude::*;

verus! {

/// The clauses of a comprehension, from left to right.
pub open spec fn clauses(c: CompV) -> Seq<(Seq<char>, SourceV)>
    decreases c, 0nat,
{
    match c {
        CompV::Clause(name, s) => seq![(name, s)],
        CompV::Cartesian(children) | CompV::Zip(children, _) | CompV::Union(children) =>
            all_clauses(children),
        CompV::Filter(child, _) | CompV::Order(child, _, _) => clauses(*child),
    }
}

/// The clauses of a run of comprehensions.
pub open spec fn all_clauses(s: Seq<CompV>) -> Seq<(Seq<char>, SourceV)>
    decreases s, s.len(),
{
    if s.len() == 0 {
        Seq::empty()
    } else {
        all_clauses(s.drop_last()) + clauses(s.last())
    }
}

/// The names of a run of clauses.
pub open spec fn names_of(s: Seq<(Seq<char>, SourceV)>) -> Seq<Seq<char>> {
    Seq::new(s.len(), |i: int| s[i].0)
}

/// The names and expressions of those clauses of a run that call a
/// generator.
pub open spec fn calls_of(s: Seq<(Seq<char>, SourceV)>) -> Seq<(Seq<char>, Seq<char>)>
    decreases s.len(),
{
    if s.len() == 0 {
        Seq::empty()
    } else {
        match s.last().1 {
            SourceV::Generator(text, _) => calls_of(s.drop_last()).push((s.last().0, text)),
            _ => calls_of(s.drop_last()),
        }
    }
}

/// Whether nothing says how many values a source has.
pub open spec fn uncounted(s: SourceV) -> bool {
    match s {
        SourceV::Generator(_, hint) | SourceV::WorkloadParamList(_, hint) => hint is None,
        _ => false,
    }
}

/// Whether a source is a continuum.
pub open spec fn sampled(s: SourceV) -> bool {
    s is ContinuousInterval || s is Distribution
}

/// Whether nothing says of one clause of a run how many values it has.
pub open spec fn some_uncounted(s: Seq<(Seq<char>, SourceV)>) -> bool {
    exists|i: int| 0 <= i < s.len() && uncounted(#[trigger] s[i].1)
}

/// Whether one clause of a run is over a continuum.
pub open spec fn some_sampled(s: Seq<(Seq<char>, SourceV)>) -> bool {
    exists|i: int| 0 <= i < s.len() && sampled(#[trigger] s[i].1)
}

proof fn lemma_names_joined(a: Seq<(Seq<char>, SourceV)>, b: Seq<(Seq<char>, SourceV)>)
    ensures
        names_of(a + b) == names_of(a) + names_of(b),
        calls_of(a + b) == calls_of(a) + calls_of(b),
        some_uncounted(a + b) <==> some_uncounted(a) || some_uncounted(b),
        some_sampled(a + b) <==> some_sampled(a) || some_sampled(b),
    decreases b.len(),
{
    assert(names_of(a + b) =~= names_of(a) + names_of(b));
    assert forall|i: int| 0 <= i < a.len() implies (#[trigger] (a + b)[i]).1 == a[i].1 by {}
    assert forall|i: int| 0 <= i < b.len() implies #[trigger] b[i].1 == (a + b)[a.len() + i].1 by {}
    if some_uncounted(a) {
        let i = choose|i: int| 0 <= i < a.len() && uncounted(#[trigger] a[i].1);
        assert(uncounted((a + b)[i].1));
    }
    if some_uncounted(b) {
        let i = choose|i: int| 0 <= i < b.len() && uncounted(#[trigger] b[i].1);
        assert(uncounted((a + b)[a.len() + i].1));
    }
    if some_uncounted(a + b) {
        let i = choose|i: int| 0 <= i < (a + b).len() && uncounted(#[trigger] (a + b)[i].1);
        if i < a.len() {
            assert(uncounted(a[i].1));
        } else {
            assert(uncounted(b[i - a.len()].1));
        }
    }
    if some_sampled(a) {
        let i = choose|i: int| 0 <= i < a.len() && sampled(#[trigger] a[i].1);
        assert(sampled((a + b)[i].1));
    }
    if some_sampled(b) {
        let i = choose|i: int| 0 <= i < b.len() && sampled(#[trigger] b[i].1);
        assert(sampled((a + b)[a.len() + i].1));
    }
    if some_sampled(a + b) {
        let i = choose|i: int| 0 <= i < (a + b).len() && sampled(#[trigger] (a + b)[i].1);
        if i < a.len() {
            assert(sampled(a[i].1));
        } else {
            assert(sampled(b[i - a.len()].1));
        }
    }
    if b.len() == 0 {
        assert(a + b =~= a);
        assert(calls_of(a) + calls_of(b) =~= calls_of(a));
    } else {
        assert((a + b).drop_last() =~= a + b.drop_last());
        assert((a + b).last() == b.last());
        lemma_names_joined(a, b.drop_last());
        assert(calls_of(a + b) =~= calls_of(a) + calls_of(b));
    }
}

/// What a projection over a comprehension gathers, over its clauses.
pub open spec fn gathered(
    s: Seq<(Seq<char>, SourceV)>,
    names: Seq<Seq<char>>,
    calls: Seq<(Seq<char>, Seq<char>)>,
    open: bool,
    reach: Reach,
) -> bool {
    &&& names == names_of(s)
    &&& calls == calls_of(s)
    &&& open <==> some_uncounted(s)
    &&& reach is Continuous <==> some_sampled(s)
    &&& reach is Bounded <==> !some_sampled(s) && !some_uncounted(s)
}

/// The elements of a comprehension are the names of its clauses from left
/// to right, its generators are those clauses that call one, and its end is
/// unknown where that of a clause is; it is a continuum where a clause is
/// one. Neither a filter nor an order changes this.
pub proof fn law_elements(c: CompV)
    ensures
        gathered(
            clauses(c),
            tile_source::element_names(c),
            tile_source::generators(c),
            tile_source::unhinted(c),
            tile_kit::comp_reach(c),
        ),
    decreases c, 0nat,
{
    match c {
        CompV::Clause(name, s) => {
            let one = clauses(c);
            assert(one =~= seq![(name, s)]);
            assert(one.drop_last() =~= Seq::<(Seq<char>, SourceV)>::empty());
            assert(calls_of(one.drop_last()) =~= Seq::<(Seq<char>, Seq<char>)>::empty());
            assert(tile_source::element_names(c) =~= names_of(one));
            assert(tile_source::generators(c) =~= calls_of(one));
            assert(one[0].1 == s);
        },
        CompV::Cartesian(children) | CompV::Zip(children, _) | CompV::Union(children) => {
            lemma_all_elements(children);
        },
        CompV::Filter(child, _) | CompV::Order(child, _, _) => {
            law_elements(*child);
        },
    }
}

proof fn lemma_all_elements(s: Seq<CompV>)
    ensures
        gathered(
            all_clauses(s),
            tile_source::all_element_names(s),
            tile_source::all_generators(s),
            tile_source::any_unhinted(s),
            tile_kit::widest(s),
        ),
    decreases s, s.len(),
{
    if s.len() == 0 {
        assert(tile_source::all_element_names(s) =~= names_of(all_clauses(s)));
    } else {
        assert(decreases_to!(s => s.last()));
        assert(decreases_to!(s => s.drop_last()));
        lemma_all_elements(s.drop_last());
        law_elements(s.last());
        lemma_names_joined(all_clauses(s.drop_last()), clauses(s.last()));
    }
}

/// The conditions of a comprehension: one more for each filter around it,
/// and none for anything else; those of a run are those of its members from
/// left to right.
pub proof fn law_predicates(c: CompV, p: Seq<char>, a: Seq<CompV>, b: Seq<CompV>)
    ensures
        tile_source::predicates(CompV::Filter(Box::new(c), p)) == seq![p]
            + tile_source::predicates(c),
        tile_source::predicates(CompV::Union(a + b)) == tile_source::predicates(CompV::Union(a))
            + tile_source::predicates(CompV::Union(b)),
        tile_source::predicates(CompV::Cartesian(a)) == tile_source::predicates(CompV::Union(a)),
        tile_source::predicates(CompV::Union(seq![c])) == tile_source::predicates(c),
    decreases b.len(),
{
    let none = Seq::<Seq<char>>::empty();
    assert(seq![c].drop_last() =~= Seq::<CompV>::empty());
    assert(tile_source::all_predicates(seq![c].drop_last()) =~= none);
    assert(none + tile_source::predicates(c) =~= tile_source::predicates(c));
    assert(tile_source::all_predicates(seq![c]) == tile_source::predicates(c));
    if b.len() == 0 {
        assert(a + b =~= a);
        assert(tile_source::all_predicates(b) =~= none);
        assert(tile_source::all_predicates(a) + none =~= tile_source::all_predicates(a));
    } else {
        law_predicates(c, p, a, b.drop_last());
        assert((a + b).drop_last() =~= a + b.drop_last());
        assert((a + b).last() == b.last());
        let x = tile_source::all_predicates(a);
        let y = tile_source::all_predicates(b.drop_last());
        let z = tile_source::predicates(b.last());
        assert(tile_source::predicates(CompV::Union(a + b.drop_last())) == x + y);
        assert(tile_source::all_predicates(a + b) == (x + y) + z);
        assert((x + y) + z =~= x + (y + z));
        assert(tile_source::all_predicates(b) == y + z);
        assert(tile_source::predicates(CompV::Union(a)) == x);
        assert(tile_source::predicates(CompV::Union(b)) == y + z);
        assert(tile_source::predicates(CompV::Union(a + b)) == tile_source::all_predicates(a + b));
    }
}

} // verus!
