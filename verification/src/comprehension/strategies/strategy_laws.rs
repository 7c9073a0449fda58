//! What holds of every ordering strategy.
use super::dispatch::Chosen;
use super::lattice;
use super::prng;
use super::shuffle;
use super::Strategy;
use crate::comprehension::metadata::IndexFnV;
use crate::comprehension::tuple::TupleV;
use vstd::prelude::*;

verus! {

/// Whether every tuple of a run is among those that were given.
pub open spec fn given(out: Seq<TupleV>, tuples: Seq<TupleV>) -> bool {
    forall|i: int| 0 <= i < out.len() ==> tuples.contains(#[trigger] out[i])
}

proof fn lemma_looked_up_given(mis: Seq<Seq<u64>>, idx: IndexFnV, tuples: Seq<TupleV>)
    ensures
        given(super::looked_up(mis, idx, tuples), tuples),
    decreases mis.len(),
{
    if mis.len() > 0 {
        let front = super::looked_up(mis.drop_last(), idx, tuples);
        let out = super::looked_up(mis, idx, tuples);
        lemma_looked_up_given(mis.drop_last(), idx, tuples);
        assert forall|i: int| 0 <= i < out.len() implies tuples.contains(#[trigger] out[i]) by {
            if i < front.len() {
                assert(out[i] == front[i]);
            } else {
                let f = super::flat_of(idx, mis.last())->Some_0;
                assert(tuples[f as int] == out[i]);
            }
        }
    }
}

proof fn lemma_limited_given(s: Seq<TupleV>, truncation: Option<u64>, tuples: Seq<TupleV>)
    requires
        given(s, tuples),
    ensures
        given(lattice::limited(s, truncation), tuples),
{
    let out = lattice::limited(s, truncation);
    assert forall|i: int| 0 <= i < out.len() implies tuples.contains(#[trigger] out[i]) by {
        assert(out[i] == s[i]);
    }
}

/// Whatever the strategy, whatever the addressing: every tuple that it gives
/// is one that it was given.
pub proof fn law_only_what_was_given(
    c: Chosen,
    tuples: Seq<TupleV>,
    idx: IndexFnV,
    truncation: Option<u64>,
)
    requires
        tuples.len() <= u64::MAX,
    ensures
        given(c.ordered(tuples, idx, truncation), tuples),
{
    let back = tuples.reverse();
    assert forall|i: int| 0 <= i < back.len() implies tuples.contains(#[trigger] back[i]) by {
        assert(back[i] == tuples[tuples.len() - 1 - i]);
    }
    assert forall|i: int| 0 <= i < tuples.len() implies tuples.contains(#[trigger] tuples[i]) by {}
    lemma_limited_given(tuples, truncation, tuples);
    lemma_limited_given(back, truncation, tuples);
    match c {
        Chosen::Lex | Chosen::ReverseLex => {},
        Chosen::Shuffle => {
            if super::has_continuous(idx) {
                let r = shuffle::stream_for(tuples.len() as u64);
                let mixed = prng::shuffled(tuples, r);
                prng::law_shuffle_permutes(tuples, r);
                assert forall|i: int| 0 <= i < mixed.len() implies tuples.contains(
                    #[trigger] mixed[i],
                ) by {
                    mixed.to_multiset_ensures();
                    tuples.to_multiset_ensures();
                    assert(mixed.contains(mixed[i]));
                    assert(mixed.to_multiset().contains(mixed[i]));
                }
                lemma_limited_given(mixed, truncation, tuples);
            } else {
                lemma_looked_up_given(shuffle::shuffle_order(idx, truncation), idx, tuples);
            }
        },
        Chosen::Extrema => {
            if super::has_continuous(idx) {
                if tuples.len() >= 2 {
                    let turned = seq![tuples[0], tuples.last()] + tuples.subrange(
                        1,
                        tuples.len() - 1,
                    );
                    assert forall|i: int| 0 <= i < turned.len() implies tuples.contains(
                        #[trigger] turned[i],
                    ) by {
                        if i >= 2 {
                            assert(turned[i] == tuples[i - 1]);
                        } else if i == 1 {
                            assert(turned[i] == tuples[tuples.len() - 1]);
                        } else {
                            assert(turned[i] == tuples[0]);
                        }
                    }
                    lemma_limited_given(turned, truncation, tuples);
                }
            } else {
                lemma_looked_up_given(
                    super::extrema::extrema_order(idx, truncation),
                    idx,
                    tuples,
                );
            }
        },
        Chosen::Diagonal => {
            if !super::has_continuous(idx) {
                lemma_looked_up_given(
                    super::diagonal::diagonal_order(idx, truncation, false),
                    idx,
                    tuples,
                );
            }
        },
        Chosen::Antidiagonal => {
            if !super::has_continuous(idx) {
                lemma_looked_up_given(
                    super::diagonal::diagonal_order(idx, truncation, true),
                    idx,
                    tuples,
                );
            }
        },
    }
}

/// The natural order and its reverse keep every tuple, one at each place
/// where it stood from the beginning or from the end; a limit keeps so many
/// of the first ones.
pub proof fn law_natural_order_and_reverse(
    tuples: Seq<TupleV>,
    idx: IndexFnV,
    n: u64,
    i: int,
)
    requires
        0 <= i < tuples.len(),
    ensures
        Chosen::Lex.ordered(tuples, idx, None).len() == tuples.len(),
        Chosen::Lex.ordered(tuples, idx, None)[i] == tuples[i],
        Chosen::ReverseLex.ordered(tuples, idx, None).len() == tuples.len(),
        Chosen::ReverseLex.ordered(tuples, idx, None)[i] == tuples[tuples.len() - 1 - i],
        i < n ==> Chosen::Lex.ordered(tuples, idx, Some(n))[i] == tuples[i],
        i < n ==> Chosen::ReverseLex.ordered(tuples, idx, Some(n))[i] == tuples[tuples.len() - 1
            - i],
        Chosen::Lex.ordered(tuples, idx, Some(n)).len() == if n < tuples.len() {
            n as nat
        } else {
            tuples.len()
        },
        Chosen::ReverseLex.ordered(tuples, idx, Some(n)).len() == if n < tuples.len() {
            n as nat
        } else {
            tuples.len()
        },
{
}

/// Only the natural order takes tuples of which nothing is known. Every
/// strategy takes what is addressed by discrete axes; those that count by
/// places along the axes take no continuum. What a strategy has a closed
/// form for, it takes.
pub proof fn law_what_a_strategy_takes(c: Chosen, idx: IndexFnV)
    ensures
        c.accepts(None) <==> c is Lex,
        !super::has_continuous(idx) ==> c.accepts(Some(idx)),
        super::has_continuous(idx) ==> (c.accepts(Some(idx)) <==> !(c is ReverseLex) && !(
        c is Diagonal) && !(c is Antidiagonal)),
        c.closed_form(idx) ==> c.accepts(Some(idx)),
{
}

/// A draw below a number is below it, and is the remainder of a draw of the
/// stream. The draws that are taken are a whole number of times as many as
/// the remainders, so that no remainder has more of them than another; fewer
/// are passed over than there are remainders.
pub proof fn law_fair_draws(s: prng::Stream, n: u64)
    requires
        n > 0,
    ensures
        prng::bounded(s, n) < n,
        prng::bounded(s, n) == prng::drawn(prng::ahead(s, prng::rejections(s, n))) % n,
        prng::after_bounded(s, n).position == s.position + prng::rejections(s, n) + 1,
        0 <= prng::reject_below(n) < n,
        (0x1_0000_0000_0000_0000int - prng::reject_below(n)) % (n as int) == 0,
{
    let all = 0x1_0000_0000_0000_0000int;
    let m = n as int;
    vstd::arithmetic::div_mod::lemma_fundamental_div_mod(all, m);
    let q = all / m;
    assert(all - all % m == m * q);
    vstd::arithmetic::div_mod::lemma_mod_multiples_basic(q, m);
    assert(m * q == q * m) by (nonlinear_arith);
    vstd::arithmetic::div_mod::lemma_mod_bound(all, m);
}

} // verus!
