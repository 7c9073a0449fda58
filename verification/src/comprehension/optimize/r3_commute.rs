//! The natural order, uncut, goes inside a filter.
use crate::comprehension::ast;
use crate::comprehension::ast::{CompV, Comprehension};
use crate::comprehension::ir::compile;
use crate::comprehension::strategy::StrategyName;
use vstd::prelude::*;

verus! {

/// A filter over the uncut natural order, in place of that order over the
/// filter.
pub open spec fn commuted(c: CompV) -> Option<CompV> {
    match c {
        CompV::Order(child, StrategyName::Lex, None) => match *child {
            CompV::Filter(inner, p) => Some(
                CompV::Filter(Box::new(CompV::Order(inner, StrategyName::Lex, None)), p),
            ),
            _ => None,
        },
        _ => None,
    }
}

/// The filter over the uncut natural order; `None` where `c` is not that
/// order over a filter.
pub fn apply(c: &Comprehension) -> (r: Option<Comprehension>)
    ensures
        match (r, commuted(ast::comp_view(*c))) {
            (Some(f), Some(want)) => ast::comp_view(f) == want,
            (None, None) => true,
            _ => false,
        },
{
    match c {
        Comprehension::Order { child, strategy: StrategyName::Lex, truncation: None } => {
            match &**child {
                Comprehension::Filter { child: inner, predicate } => {
                    let order: Comprehension = Comprehension::order(
                        (&**inner).copy(),
                        StrategyName::Lex,
                        None,
                    );
                    assert(ast::comp_view(**child) == CompV::Filter(
                        Box::new(ast::comp_view(**inner)),
                        predicate@,
                    ));
                    Some(Comprehension::filter(order, predicate.as_str()))
                },
                _ => None,
            }
        },
        _ => None,
    }
}

/// The rewrite keeps what a comprehension dispenses.
pub proof fn law_commuting_keeps_tuples(c: CompV)
    ensures
        commuted(c) matches Some(f) ==> compile::tuples_of(f) == compile::tuples_of(c),
{
    if commuted(c) is Some {
        let child = *c->Order_0;
        let inner = *child->Filter_0;
        let order = CompV::Order(Box::new(inner), StrategyName::Lex, None);
        assert(compile::tuples_of(order) == compile::tuples_of(inner));
        assert(compile::tuples_of(c) == compile::tuples_of(child));
    }
}

} // verus!
