//! Flattening: a union of unions, or a product of products, is one.
use crate::comprehension::ast;
use crate::comprehension::ast::{CompV, Comprehension};
use crate::comprehension::ir::compile;
use crate::comprehension::ir::dispense;
use crate::comprehension::tuple::TupleV;
use vstd::prelude::*;

verus! {

/// The children with each union among them replaced by its own.
pub open spec fn without_unions(s: Seq<CompV>) -> Seq<CompV>
    decreases s.len(),
{
    if s.len() == 0 {
        Seq::empty()
    } else {
        without_unions(s.drop_last()) + match s.last() {
            CompV::Union(inner) => inner,
            other => seq![other],
        }
    }
}

/// The children with each product among them replaced by its own.
pub open spec fn without_products(s: Seq<CompV>) -> Seq<CompV>
    decreases s.len(),
{
    if s.len() == 0 {
        Seq::empty()
    } else {
        without_products(s.drop_last()) + match s.last() {
            CompV::Cartesian(inner) => inner,
            other => seq![other],
        }
    }
}

/// The flat form of a comprehension, where it is not flat.
pub open spec fn flattened(c: CompV) -> Option<CompV> {
    match c {
        CompV::Union(children) => if exists|i: int|
            0 <= i < children.len() && (#[trigger] children[i]) is Union {
            Some(CompV::Union(without_unions(children)))
        } else {
            None
        },
        CompV::Cartesian(children) => if exists|i: int|
            0 <= i < children.len() && (#[trigger] children[i]) is Cartesian {
            Some(CompV::Cartesian(without_products(children)))
        } else {
            None
        },
        _ => None,
    }
}

/// Contents of two runs, one after the other.
proof fn lemma_views_concat(a: Seq<Comprehension>, b: Seq<Comprehension>)
    ensures
        ast::comp_views(a + b) == ast::comp_views(a) + ast::comp_views(b),
{
    ast::lemma_comp_views(a);
    ast::lemma_comp_views(b);
    ast::lemma_comp_views(a + b);
    assert(ast::comp_views(a + b) =~= ast::comp_views(a) + ast::comp_views(b));
}

/// Add copies of `items` at the end.
fn extend(out: &mut Vec<Comprehension>, items: &Vec<Comprehension>)
    ensures
        ast::comp_views(final(out)@) == ast::comp_views(old(out)@) + ast::comp_views(items@),
{
    let mut more: Vec<Comprehension> = ast::copy_comprehensions(items);
    let ghost m = more@;
    out.append(&mut more);
    proof {
        lemma_views_concat(old(out)@, m);
        assert(out@ =~= old(out)@ + m);
    }
}

/// Add a copy of `item` at the end.
fn add_one(out: &mut Vec<Comprehension>, item: &Comprehension)
    ensures
        ast::comp_views(final(out)@) == ast::comp_views(old(out)@) + seq![ast::comp_view(*item)],
{
    out.push(item.copy());
    proof {
        assert(out@.drop_last() =~= old(out)@);
        assert(ast::comp_views(out@) =~= ast::comp_views(old(out)@) + seq![
            ast::comp_view(*item),
        ]);
    }
}

/// The flat form of `ast`; `None` where it is flat.
pub fn apply(c: &Comprehension) -> (r: Option<Comprehension>)
    ensures
        match (r, flattened(ast::comp_view(*c))) {
            (Some(f), Some(want)) => ast::comp_view(f) == want,
            (None, None) => true,
            _ => false,
        },
{
    match c {
        Comprehension::Union { children } => {
            let ghost views = ast::comp_views(children@);
            proof {
                ast::lemma_comp_views(children@);
                assert(views.take(0) =~= Seq::<CompV>::empty());
            }
            let mut nested: bool = false;
            let mut flat: Vec<Comprehension> = Vec::new();
            let mut i: usize = 0;
            assert(ast::comp_views(flat@) =~= Seq::<CompV>::empty());
            while i < children.len()
                invariant
                    i <= children@.len(),
                    views == ast::comp_views(children@),
                    views.len() == children@.len(),
                    forall|k: int|
                        0 <= k < views.len() ==> #[trigger] views[k] == ast::comp_view(
                            children@[k],
                        ),
                    nested == exists|k: int| 0 <= k < i && (#[trigger] views[k]) is Union,
                    ast::comp_views(flat@) == without_unions(views.take(i as int)),
                decreases children.len() - i,
            {
                proof {
                    assert(views.take(i + 1).drop_last() =~= views.take(i as int));
                    assert(views.take(i + 1).last() == views[i as int]);
                }
                match &children[i] {
                    Comprehension::Union { children: inner } => {
                        assert(views[i as int] is Union);
                        extend(&mut flat, inner);
                        nested = true;
                    },
                    other => {
                        assert(!(views[i as int] is Union));
                        add_one(&mut flat, other);
                    },
                }
                i = i + 1;
            }
            assert(views.take(i as int) =~= views);
            if nested {
                Some(Comprehension::Union { children: flat })
            } else {
                None
            }
        },
        Comprehension::Cartesian { children } => {
            let ghost views = ast::comp_views(children@);
            proof {
                ast::lemma_comp_views(children@);
                assert(views.take(0) =~= Seq::<CompV>::empty());
            }
            let mut nested: bool = false;
            let mut flat: Vec<Comprehension> = Vec::new();
            let mut i: usize = 0;
            assert(ast::comp_views(flat@) =~= Seq::<CompV>::empty());
            while i < children.len()
                invariant
                    i <= children@.len(),
                    views == ast::comp_views(children@),
                    views.len() == children@.len(),
                    forall|k: int|
                        0 <= k < views.len() ==> #[trigger] views[k] == ast::comp_view(
                            children@[k],
                        ),
                    nested == exists|k: int| 0 <= k < i && (#[trigger] views[k]) is Cartesian,
                    ast::comp_views(flat@) == without_products(views.take(i as int)),
                decreases children.len() - i,
            {
                proof {
                    assert(views.take(i + 1).drop_last() =~= views.take(i as int));
                    assert(views.take(i + 1).last() == views[i as int]);
                }
                match &children[i] {
                    Comprehension::Cartesian { children: inner } => {
                        assert(views[i as int] is Cartesian);
                        extend(&mut flat, inner);
                        nested = true;
                    },
                    other => {
                        assert(!(views[i as int] is Cartesian));
                        add_one(&mut flat, other);
                    },
                }
                i = i + 1;
            }
            assert(views.take(i as int) =~= views);
            if nested {
                Some(Comprehension::Cartesian { children: flat })
            } else {
                None
            }
        },
        _ => None,
    }
}

// ---------------------------------------------------------------------
// Laws
// ---------------------------------------------------------------------

proof fn lemma_joined_concat(a: Seq<Seq<TupleV>>, b: Seq<Seq<TupleV>>)
    ensures
        dispense::joined(a + b) == dispense::joined(a) + dispense::joined(b),
    decreases a.len(),
{
    if a.len() == 0 {
        assert(a + b =~= b);
        assert(dispense::joined(a) + dispense::joined(b) =~= dispense::joined(b));
    } else {
        assert((a + b)[0] == a[0]);
        assert((a + b).drop_first() =~= a.drop_first() + b);
        lemma_joined_concat(a.drop_first(), b);
        assert(a[0] + (dispense::joined(a.drop_first()) + dispense::joined(b)) =~= (a[0]
            + dispense::joined(a.drop_first())) + dispense::joined(b));
    }
}

proof fn lemma_each_concat(a: Seq<CompV>, b: Seq<CompV>)
    ensures
        compile::tuples_of_each(a + b) == compile::tuples_of_each(a) + compile::tuples_of_each(b),
{
    compile::lemma_tuples_of_each(a);
    compile::lemma_tuples_of_each(b);
    compile::lemma_tuples_of_each(a + b);
    assert(compile::tuples_of_each(a + b) =~= compile::tuples_of_each(a)
        + compile::tuples_of_each(b));
}

proof fn lemma_each_one(c: CompV)
    ensures
        compile::tuples_of_each(seq![c]) == seq![compile::tuples_of(c)],
{
    compile::lemma_tuples_of_each(seq![c]);
    assert(compile::tuples_of_each(seq![c]) =~= seq![compile::tuples_of(c)]);
}

proof fn lemma_union_flat(s: Seq<CompV>)
    ensures
        dispense::joined(compile::tuples_of_each(without_unions(s))) == dispense::joined(
            compile::tuples_of_each(s),
        ),
    decreases s.len(),
{
    if s.len() > 0 {
        let front = s.drop_last();
        lemma_union_flat(front);
        let own = match s.last() {
            CompV::Union(inner) => inner,
            other => seq![other],
        };
        lemma_each_concat(without_unions(front), own);
        lemma_joined_concat(
            compile::tuples_of_each(without_unions(front)),
            compile::tuples_of_each(own),
        );
        assert(s =~= front + seq![s.last()]);
        lemma_each_concat(front, seq![s.last()]);
        lemma_each_one(s.last());
        lemma_joined_concat(compile::tuples_of_each(front), seq![compile::tuples_of(s.last())]);
        let one = seq![compile::tuples_of(s.last())];
        assert(one.drop_first() =~= Seq::<Seq<TupleV>>::empty());
        assert(dispense::joined(one) =~= compile::tuples_of(s.last())) by {
            assert(dispense::joined(one.drop_first()) =~= Seq::<TupleV>::empty());
        }
    }
}

proof fn lemma_prefixed_crossed(h: TupleV, b: Seq<TupleV>, c: Seq<TupleV>)
    ensures
        dispense::crossed(dispense::prefixed(h, b), c) == dispense::prefixed(
            h,
            dispense::crossed(b, c),
        ),
    decreases b.len(),
{
    if b.len() == 0 {
        assert(dispense::prefixed(h, b) =~= Seq::<TupleV>::empty());
        assert(dispense::prefixed(h, dispense::crossed(b, c)) =~= Seq::<TupleV>::empty());
    } else {
        lemma_prefixed_crossed(h, b.drop_first(), c);
        assert(dispense::prefixed(h, b).drop_first() =~= dispense::prefixed(h, b.drop_first()));
        assert(dispense::prefixed(h + b[0], c) =~= dispense::prefixed(
            h,
            dispense::prefixed(b[0], c),
        )) by {
            assert forall|i: int| 0 <= i < c.len() implies (h + b[0]) + c[i] =~= h + (b[0]
                + c[i]) by {}
        }
        assert(dispense::prefixed(h, dispense::crossed(b, c)) =~= dispense::prefixed(
            h,
            dispense::prefixed(b[0], c),
        ) + dispense::prefixed(h, dispense::crossed(b.drop_first(), c)));
    }
}

proof fn lemma_crossed_assoc(a: Seq<TupleV>, b: Seq<TupleV>, c: Seq<TupleV>)
    ensures
        dispense::crossed(dispense::crossed(a, b), c) == dispense::crossed(
            a,
            dispense::crossed(b, c),
        ),
    decreases a.len(),
{
    if a.len() > 0 {
        lemma_crossed_assoc(a.drop_first(), b, c);
        dispense::lemma_crossed_concat(
            dispense::prefixed(a[0], b),
            dispense::crossed(a.drop_first(), b),
            c,
        );
        lemma_prefixed_crossed(a[0], b, c);
    }
}

proof fn lemma_crossed_unit(a: Seq<TupleV>)
    ensures
        dispense::crossed(a, seq![Seq::empty()]) == a,
        dispense::crossed(seq![Seq::empty()], a) == a,
    decreases a.len(),
{
    let unit: Seq<TupleV> = seq![Seq::empty()];
    assert(unit.drop_first() =~= Seq::<TupleV>::empty());
    assert(dispense::prefixed(Seq::empty(), a) =~= a) by {
        assert forall|i: int| 0 <= i < a.len() implies Seq::<
            (Seq<char>, crate::comprehension::tuple::TupleValueV),
        >::empty() + a[i] =~= a[i] by {}
    }
    assert(dispense::crossed(unit, a) =~= dispense::prefixed(Seq::empty(), a)
        + dispense::crossed(unit.drop_first(), a));
    assert(dispense::crossed(unit, a) =~= a);
    if a.len() > 0 {
        lemma_crossed_unit(a.drop_first());
        assert(a[0] + Seq::empty() =~= a[0]);
        assert(dispense::prefixed(a[0], unit) =~= seq![a[0]]);
        assert(seq![a[0]] + a.drop_first() =~= a);
    }
}

proof fn lemma_product_concat(a: Seq<Seq<TupleV>>, b: Seq<Seq<TupleV>>)
    ensures
        dispense::product(a + b) == dispense::crossed(dispense::product(a), dispense::product(b)),
    decreases a.len(),
{
    if a.len() == 0 {
        assert(a + b =~= b);
        lemma_crossed_unit(dispense::product(b));
    } else {
        assert((a + b)[0] == a[0]);
        assert((a + b).drop_first() =~= a.drop_first() + b);
        lemma_product_concat(a.drop_first(), b);
        lemma_crossed_assoc(a[0], dispense::product(a.drop_first()), dispense::product(b));
    }
}

/// No product without children is among a run.
pub open spec fn products_have_children(s: Seq<CompV>) -> bool {
    forall|i: int|
        0 <= i < s.len() ==> ((#[trigger] s[i]) matches CompV::Cartesian(inner) ==> inner.len()
            > 0)
}

proof fn lemma_product_flat(s: Seq<CompV>)
    requires
        products_have_children(s),
    ensures
        dispense::product(compile::tuples_of_each(without_products(s))) == dispense::product(
            compile::tuples_of_each(s),
        ),
        s.len() > 0 ==> without_products(s).len() > 0,
    decreases s.len(),
{
    if s.len() > 0 {
        let front = s.drop_last();
        assert(products_have_children(front)) by {
            assert forall|i: int| 0 <= i < front.len() implies ((
            #[trigger] front[i]) matches CompV::Cartesian(inner) ==> inner.len() > 0) by {
                assert(front[i] == s[i]);
            }
        }
        lemma_product_flat(front);
        assert(s[s.len() - 1] == s.last());
        let own = match s.last() {
            CompV::Cartesian(inner) => inner,
            other => seq![other],
        };
        lemma_each_concat(without_products(front), own);
        lemma_product_concat(
            compile::tuples_of_each(without_products(front)),
            compile::tuples_of_each(own),
        );
        assert(s =~= front + seq![s.last()]);
        lemma_each_concat(front, seq![s.last()]);
        lemma_each_one(s.last());
        let one = seq![compile::tuples_of(s.last())];
        lemma_product_concat(compile::tuples_of_each(front), one);
        assert(one.drop_first() =~= Seq::<Seq<TupleV>>::empty());
        lemma_crossed_unit(compile::tuples_of(s.last()));
        compile::lemma_tuples_of_each(own);
        assert(dispense::product(one.drop_first()) =~= seq![Seq::empty()]);
        assert(dispense::product(one) == compile::tuples_of(s.last()));
        if s.last() is Cartesian {
            assert(dispense::product(compile::tuples_of_each(own)) == compile::tuples_of(
                s.last(),
            ));
        } else {
            lemma_each_one(s.last());
            assert(compile::tuples_of_each(own) == one);
        }
    }
}

/// Flattening keeps what a comprehension dispenses, where no product inside
/// a product is without children.
pub proof fn law_flattening_keeps_tuples(c: CompV)
    requires
        c matches CompV::Cartesian(children) ==> products_have_children(children),
    ensures
        flattened(c) matches Some(f) ==> compile::tuples_of(f) == compile::tuples_of(c),
{
    match c {
        CompV::Union(children) => {
            lemma_union_flat(children);
        },
        CompV::Cartesian(children) => {
            if children.len() > 0 {
                lemma_product_flat(children);
            }
            compile::lemma_tuples_of_each(children);
            compile::lemma_tuples_of_each(without_products(children));
        },
        _ => {},
    }
}

} // verus!
