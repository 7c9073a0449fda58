//! How clauses that were read combine, and how documents are read.
use super::parse;
use super::serde_form;
use super::serde_form::{ForV, SpecV};
use crate::comprehension::ast_legacy;
use crate::comprehension::ast_legacy::{ClauseV, ModeV};
use crate::value::JsonV;
use vstd::prelude::*;

verus! {

/// Whether a clause binds a name that a clause of a run binds.
pub open spec fn repeats(s: Seq<ClauseV>, c: ClauseV) -> bool {
    exists|i: int, j: int, k: int|
        0 <= i < s.len() && 0 <= j < s[i].vars.len() && 0 <= k < c.vars.len() && #[trigger]
            s[i].vars[j] == #[trigger] c.vars[k]
}

proof fn lemma_names(s: Seq<ClauseV>, n: Seq<char>)
    ensures
        ast_legacy::names_of(s).contains(n) <==> exists|i: int, j: int|
            0 <= i < s.len() && 0 <= j < s[i].vars.len() && #[trigger] s[i].vars[j] == n,
    decreases s.len(),
{
    if s.len() > 0 {
        let front = s.drop_last();
        lemma_names(front, n);
        let a = ast_legacy::names_of(front);
        let all = ast_legacy::names_of(s);
        assert(all == a + s.last().vars);
        if all.contains(n) {
            let k = choose|k: int| 0 <= k < all.len() && all[k] == n;
            if k < a.len() {
                assert(a[k] == n);
                let (i, j) = choose|i: int, j: int|
                    0 <= i < front.len() && 0 <= j < front[i].vars.len() && #[trigger]
                        front[i].vars[j] == n;
                assert(s[i].vars[j] == n);
            } else {
                assert(s[s.len() - 1].vars[k - a.len()] == n);
            }
        }
        if exists|i: int, j: int|
            0 <= i < s.len() && 0 <= j < s[i].vars.len() && #[trigger] s[i].vars[j] == n {
            let (i, j) = choose|i: int, j: int|
                0 <= i < s.len() && 0 <= j < s[i].vars.len() && #[trigger] s[i].vars[j] == n;
            if i < front.len() {
                assert(front[i].vars[j] == n);
                let k = choose|k: int| 0 <= k < a.len() && a[k] == n;
                assert(all[k] == n);
            } else {
                assert(all[a.len() + j] == n);
            }
        }
    }
}

proof fn lemma_shares(s: Seq<ClauseV>, c: ClauseV)
    ensures
        parse::shares_name(s, c) <==> repeats(s, c),
{
    if parse::shares_name(s, c) {
        let k = choose|k: int|
            0 <= k < c.vars.len() && ast_legacy::names_of(s).contains(#[trigger] c.vars[k]);
        lemma_names(s, c.vars[k]);
        let (i, j) = choose|i: int, j: int|
            0 <= i < s.len() && 0 <= j < s[i].vars.len() && #[trigger] s[i].vars[j] == c.vars[k];
        assert(s[i].vars[j] == c.vars[k]);
    }
    if repeats(s, c) {
        let (i, j, k) = choose|i: int, j: int, k: int|
            0 <= i < s.len() && 0 <= j < s[i].vars.len() && 0 <= k < c.vars.len() && #[trigger]
                s[i].vars[j] == #[trigger] c.vars[k];
        lemma_names(s, c.vars[k]);
        assert(s[i].vars[j] == c.vars[k]);
    }
}

/// Whether no clause of a run binds a name again.
pub open spec fn binds_once(s: Seq<ClauseV>) -> bool {
    forall|k: int| 0 <= k < s.len() ==> !repeats(#[trigger] s.take(k), s[k])
}

/// Clauses are put into sub-spaces in their order and none is lost. Within a
/// sub-space no name is bound again, and a sub-space ends only where the
/// next clause would do that.
pub proof fn law_groups(s: Seq<ClauseV>)
    ensures
        ast_legacy::flat_subspaces(parse::by_repeats(s)) == s,
        forall|g: int|
            0 <= g < parse::by_repeats(s).len() ==> (#[trigger] parse::by_repeats(s)[g]).len() > 0
                && binds_once(parse::by_repeats(s)[g]),
        forall|g: int|
            0 < g < parse::by_repeats(s).len() ==> repeats(
                parse::by_repeats(s)[g - 1],
                (#[trigger] parse::by_repeats(s)[g])[0],
            ),
    decreases s.len(),
{
    let all = parse::by_repeats(s);
    if s.len() == 0 {
        assert(ast_legacy::flat_subspaces(all) =~= s);
    } else {
        law_groups(s.drop_last());
        let front = parse::by_repeats(s.drop_last());
        let c = s.last();
        assert(s.drop_last().push(c) =~= s);
        if front.len() > 0 && !parse::shares_name(front.last(), c) {
            let last = front.last();
            lemma_shares(last, c);
            let grown = last.push(c);
            assert(all.drop_last() =~= front.drop_last());
            assert(all.last() == grown);
            assert(ast_legacy::flat_subspaces(front.drop_last()) + grown =~= (
            ast_legacy::flat_subspaces(front.drop_last()) + last).push(c));
            assert(front[front.len() - 1] == last);
            assert(binds_once(grown)) by {
                assert forall|k: int| 0 <= k < grown.len() implies !repeats(
                    #[trigger] grown.take(k),
                    grown[k],
                ) by {
                    if k < last.len() {
                        assert(grown.take(k) =~= last.take(k));
                    } else {
                        assert(grown.take(k) =~= last);
                    }
                }
            }
            assert forall|g: int| 0 <= g < all.len() implies (#[trigger] all[g]).len() > 0
                && binds_once(all[g]) by {
                if g < front.len() - 1 {
                    assert(all[g] == front[g]);
                }
            }
            assert forall|g: int| 0 < g < all.len() implies repeats(
                all[g - 1],
                (#[trigger] all[g])[0],
            ) by {
                assert(all[g - 1] == front[g - 1]);
                assert(repeats(front[g - 1], front[g][0]));
                if g < front.len() - 1 {
                    assert(all[g] == front[g]);
                }
            }
        } else {
            let one = seq![c];
            assert(all.drop_last() =~= front);
            assert(all.last() == one);
            assert(s.drop_last() + one =~= s);
            assert(binds_once(one)) by {
                assert forall|k: int| 0 <= k < one.len() implies !repeats(
                    #[trigger] one.take(k),
                    one[k],
                ) by {
                    assert(one.take(k).len() == 0);
                }
            }
            if front.len() > 0 {
                lemma_shares(front.last(), c);
            }
            assert forall|g: int| 0 <= g < all.len() implies (#[trigger] all[g]).len() > 0
                && binds_once(all[g]) by {
                if g < front.len() {
                    assert(all[g] == front[g]);
                }
            }
            assert forall|g: int| 0 < g < all.len() implies repeats(
                all[g - 1],
                (#[trigger] all[g])[0],
            ) by {
                assert(all[g - 1] == front[g - 1]);
                if g < front.len() {
                    assert(all[g] == front[g]);
                }
            }
        }
    }
}

proof fn lemma_one_group(s: Seq<ClauseV>)
    requires
        s.len() > 0,
    ensures
        parse::by_repeats(s).len() >= 1,
        parse::by_repeats(s).len() == 1 <==> binds_once(s),
        parse::by_repeats(s).len() == 1 ==> parse::by_repeats(s)[0] == s,
    decreases s.len(),
{
    let front = s.drop_last();
    let c = s.last();
    let all = parse::by_repeats(s);
    assert(s.take(s.len() - 1) =~= front);
    if front.len() > 0 {
        lemma_one_group(front);
        let groups = parse::by_repeats(front);
        lemma_shares(front, c);
        lemma_shares(groups.last(), c);
        if binds_once(s) {
            assert forall|k: int| 0 <= k < front.len() implies !repeats(
                #[trigger] front.take(k),
                front[k],
            ) by {
                assert(front.take(k) =~= s.take(k));
                assert(!repeats(s.take(k), s[k]));
            }
            assert(binds_once(front));
            assert(!repeats(s.take(s.len() - 1), s[s.len() - 1]));
            assert(groups.last() == front);
            assert(groups.drop_last() =~= Seq::<Seq<ClauseV>>::empty());
        }
        if all.len() == 1 {
            assert(groups.len() == 1);
            assert(groups.last() == front);
            assert(!repeats(front, c));
            assert forall|k: int| 0 <= k < s.len() implies !repeats(
                #[trigger] s.take(k),
                s[k],
            ) by {
                if k < front.len() {
                    assert(s.take(k) =~= front.take(k));
                    assert(!repeats(front.take(k), front[k]));
                }
            }
            assert(all[0] =~= s);
        }
    } else {
        assert(parse::by_repeats(front) =~= Seq::<Seq<ClauseV>>::empty());
        assert(all =~= seq![seq![c]]);
        assert(seq![c] =~= s);
        assert forall|k: int| 0 <= k < s.len() implies !repeats(#[trigger] s.take(k), s[k]) by {
            assert(s.take(k).len() == 0);
        }
    }
}

/// Clauses combine to every combination exactly when no name is bound
/// again; else they are alternatives, which hold the same clauses.
pub proof fn law_how_clauses_combine(s: Seq<ClauseV>)
    requires
        s.len() > 0,
    ensures
        parse::mode_of(s) is Cartesian <==> binds_once(s),
        ast_legacy::flat(parse::mode_of(s)) == s,
{
    lemma_one_group(s);
    law_groups(s);
}

// ---------------------------------------------------------------------
// Documents
// ---------------------------------------------------------------------

/// Whether the first member of a name is this one.
pub open spec fn has_member(s: Seq<(Seq<char>, JsonV)>, key: Seq<char>, v: JsonV) -> bool {
    exists|i: int|
        0 <= i < s.len() && #[trigger] s[i] == (key, v) && forall|j: int|
            0 <= j < i ==> (#[trigger] s[j]).0 != key
}

/// Whether there is no member of a name.
pub open spec fn lacks_member(s: Seq<(Seq<char>, JsonV)>, key: Seq<char>) -> bool {
    forall|i: int| 0 <= i < s.len() ==> (#[trigger] s[i]).0 != key
}

proof fn lemma_has_member(s: Seq<(Seq<char>, JsonV)>, key: Seq<char>, v: JsonV)
    requires
        has_member(s, key, v),
    ensures
        serde_form::member(s, key) == Some(v),
    decreases s.len(),
{
    let i = choose|i: int|
        0 <= i < s.len() && #[trigger] s[i] == (key, v) && forall|j: int|
            0 <= j < i ==> (#[trigger] s[j]).0 != key;
    if i > 0 {
        assert(s[0].0 != key);
        let rest = s.drop_first();
        assert(rest[i - 1] == (key, v));
        assert forall|j: int| 0 <= j < i - 1 implies (#[trigger] rest[j]).0 != key by {
            assert(rest[j] == s[j + 1]);
        }
        lemma_has_member(rest, key, v);
    }
}

proof fn lemma_lacks_member(s: Seq<(Seq<char>, JsonV)>, key: Seq<char>)
    requires
        lacks_member(s, key),
    ensures
        serde_form::member(s, key) is None,
    decreases s.len(),
{
    if s.len() > 0 {
        assert(s[0].0 != key);
        let rest = s.drop_first();
        assert forall|j: int| 0 <= j < rest.len() implies (#[trigger] rest[j]).0 != key by {
            assert(rest[j] == s[j + 1]);
        }
        lemma_lacks_member(rest, key);
    }
}

/// A document with a text under `for` is that comprehension, with the
/// filter under `where` and the order under `order`, if they are there; one
/// without `for` is none.
pub proof fn law_document_reads(
    s: Seq<(Seq<char>, JsonV)>,
    clauses: Seq<char>,
    filter: Option<Seq<char>>,
    order: Option<Seq<char>>,
)
    requires
        match filter {
            Some(p) => has_member(s, "where"@, JsonV::Text(p)),
            None => lacks_member(s, "where"@),
        },
        match order {
            Some(o) => has_member(s, "order"@, JsonV::Text(o)),
            None => lacks_member(s, "order"@),
        },
    ensures
        has_member(s, "for"@, JsonV::Text(clauses)) ==> serde_form::spec_of(JsonV::Object(s))
            == Some(SpecV { clauses: ForV::Text(clauses), filter, order }),
        lacks_member(s, "for"@) ==> serde_form::spec_of(JsonV::Object(s)) is None,
{
    match filter {
        Some(p) => lemma_has_member(s, "where"@, JsonV::Text(p)),
        None => lemma_lacks_member(s, "where"@),
    }
    match order {
        Some(o) => lemma_has_member(s, "order"@, JsonV::Text(o)),
        None => lemma_lacks_member(s, "order"@),
    }
    if has_member(s, "for"@, JsonV::Text(clauses)) {
        lemma_has_member(s, "for"@, JsonV::Text(clauses));
    }
    if lacks_member(s, "for"@) {
        lemma_lacks_member(s, "for"@);
    }
}

/// The documents of a run of texts.
pub open spec fn text_items(l: Seq<Seq<char>>) -> Seq<JsonV> {
    Seq::new(l.len(), |i: int| JsonV::Text(l[i]))
}

/// The documents of a run of lists of texts.
pub open spec fn list_items(g: Seq<Seq<Seq<char>>>) -> Seq<JsonV> {
    Seq::new(g.len(), |i: int| JsonV::Array(text_items(g[i])))
}

proof fn lemma_all_texts(l: Seq<Seq<char>>)
    ensures
        serde_form::all_texts(text_items(l)) == Some(l),
    decreases l.len(),
{
    let items = text_items(l);
    if l.len() == 0 {
        assert(l =~= Seq::<Seq<char>>::empty());
    } else {
        assert(items.drop_last() =~= text_items(l.drop_last()));
        lemma_all_texts(l.drop_last());
        assert(l.drop_last().push(l.last()) =~= l);
    }
}

proof fn lemma_all_lists(g: Seq<Seq<Seq<char>>>)
    ensures
        serde_form::all_lists(list_items(g)) == Some(g),
        g.len() > 0 ==> serde_form::all_texts(list_items(g)) is None,
    decreases g.len(),
{
    let items = list_items(g);
    if g.len() == 0 {
        assert(g =~= Seq::<Seq<Seq<char>>>::empty());
    } else {
        assert(items.drop_last() =~= list_items(g.drop_last()));
        lemma_all_lists(g.drop_last());
        lemma_all_texts(g.last());
        assert(items.last() == JsonV::Array(text_items(g.last())));
        assert(g.drop_last().push(g.last()) =~= g);
    }
}

/// Under `for` a text stands for itself, an array of texts for a list of
/// them, and an array of such arrays for groups; an array of both, a number
/// or an object stands for none.
pub proof fn law_clauses_of_a_document(
    l: Seq<Seq<char>>,
    g: Seq<Seq<Seq<char>>>,
    t: Seq<char>,
    members: Seq<(Seq<char>, JsonV)>,
)
    ensures
        serde_form::for_of(JsonV::Text(t)) == Some(ForV::Text(t)),
        serde_form::for_of(JsonV::Array(text_items(l))) == Some(ForV::List(l)),
        g.len() > 0 ==> serde_form::for_of(JsonV::Array(list_items(g))) == Some(ForV::Groups(g)),
        g.len() > 0 ==> serde_form::for_of(
            JsonV::Array(list_items(g).push(JsonV::Text(t))),
        ) is None,
        serde_form::for_of(JsonV::Object(members)) is None,
        serde_form::for_of(JsonV::Null) is None,
{
    lemma_all_texts(l);
    lemma_all_lists(g);
    let both = list_items(g).push(JsonV::Text(t));
    assert(both.drop_last() =~= list_items(g));
    assert(both.last() == JsonV::Text(t));
}

proof fn lemma_lists_joined(a: Seq<Seq<char>>, b: Seq<Seq<char>>)
    requires
        serde_form::list_clauses(a) is Ok,
        serde_form::list_clauses(b) is Ok,
    ensures
        serde_form::list_clauses(a + b) == Ok::<Seq<ClauseV>, Seq<char>>(
            serde_form::list_clauses(a)->Ok_0 + serde_form::list_clauses(b)->Ok_0,
        ),
    decreases b.len(),
{
    if b.len() == 0 {
        assert(a + b =~= a);
        assert(serde_form::list_clauses(a)->Ok_0 + Seq::<ClauseV>::empty()
            =~= serde_form::list_clauses(a)->Ok_0);
    } else {
        assert((a + b).drop_last() =~= a + b.drop_last());
        lemma_lists_joined(a, b.drop_last());
        let x = serde_form::list_clauses(a)->Ok_0;
        let y = serde_form::list_clauses(b.drop_last())->Ok_0;
        let z = parse::clauses_of(b.last())->Some_0;
        assert((x + y) + z =~= x + (y + z));
    }
}

/// The clauses of a list are those of its texts one after the other, so a
/// text alone is a list of one; a text that cannot be read is named, and
/// the first such text where there are several.
pub proof fn law_list_of_clauses(a: Seq<Seq<char>>, t: Seq<char>, b: Seq<Seq<char>>)
    requires
        serde_form::list_clauses(a) is Ok,
    ensures
        serde_form::mode_of_for(ForV::Text(t)) == serde_form::mode_of_for(ForV::List(seq![t])),
        parse::clauses_of(t) is Some && serde_form::list_clauses(b) is Ok
            ==> serde_form::list_clauses(a + seq![t] + b) == Ok::<Seq<ClauseV>, Seq<char>>(
            serde_form::list_clauses(a)->Ok_0 + parse::clauses_of(t)->Some_0
                + serde_form::list_clauses(b)->Ok_0,
        ),
        parse::clauses_of(t) is None ==> serde_form::list_clauses(a + seq![t] + b) == Err::<
            Seq<ClauseV>,
            Seq<char>,
        >(t),
    decreases b.len(),
{
    let none = Seq::<Seq<char>>::empty();
    let front = a + seq![t];
    assert(front.drop_last() =~= a);
    assert(front.last() == t);
    if parse::clauses_of(t) is Some {
        if serde_form::list_clauses(b) is Ok {
            lemma_lists_joined(front, b);
        }
    } else if b.len() == 0 {
        assert(front + b =~= front);
    } else {
        law_list_of_clauses(a, t, b.drop_last());
        assert((front + b).drop_last() =~= front + b.drop_last());
    }
}

/// Groups are alternatives, one for each list, with the clauses of that
/// list.
pub proof fn law_groups_of_clauses(g: Seq<Seq<Seq<char>>>)
    requires
        forall|i: int|
            0 <= i < g.len() ==> serde_form::list_clauses(#[trigger] g[i]) is Ok,
    ensures
        serde_form::mode_of_for(ForV::Groups(g)) == Ok::<ModeV, Seq<char>>(
            ModeV::Union(
                Seq::new(g.len(), |i: int| serde_form::list_clauses(g[i])->Ok_0),
            ),
        ),
    decreases g.len(),
{
    let want = Seq::new(g.len(), |i: int| serde_form::list_clauses(g[i])->Ok_0);
    if g.len() == 0 {
        assert(want =~= Seq::<Seq<ClauseV>>::empty());
    } else {
        let front = g.drop_last();
        assert forall|i: int| 0 <= i < front.len() implies serde_form::list_clauses(
            #[trigger] front[i],
        ) is Ok by {
            assert(front[i] == g[i]);
        }
        law_groups_of_clauses(front);
        assert(serde_form::list_clauses(g[g.len() - 1]) is Ok);
        assert(want.drop_last() =~= Seq::new(
            front.len(),
            |i: int| serde_form::list_clauses(front[i])->Ok_0,
        ));
        assert(want.drop_last().push(serde_form::list_clauses(g.last())->Ok_0) =~= want);
    }
}

} // verus!
