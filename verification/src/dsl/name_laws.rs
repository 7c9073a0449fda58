//! Which names an expression refers to, how names are ordered and gathered,
//! and which of several things of a name counts.
use crate::dsl::ast::{ArgV, ExprV, StatementV};
use crate::dsl::binding;
use crate::dsl::pragmas;
use crate::dsl::pragmas::PragmaV;
use crate::dsl::refs;
use crate::dsl::registry;
use crate::dsl::registry::{FuncSig, ParamSpec};
use vstd::prelude::*;

verus! {

// ---------------------------------------------------------------------
// References
// ---------------------------------------------------------------------

/// Whether a name stands in an expression: as itself, as the source of a
/// projection, between the braces of a text, or in a part of it.
pub open spec fn mentions(e: ExprV, n: Seq<char>) -> bool
    decreases e,
{
    match e {
        ExprV::Ident(x, _) => x == n,
        ExprV::FieldAccess(source, _, _) => source == n,
        ExprV::StringLit(s, _) => refs::identifier(n) && binding::bodies(s, 0).contains(n),
        ExprV::Call(_, args, _) => exists|i: int|
            0 <= i < args.len() && mentions(#[trigger] args[i].value, n),
        ExprV::ArrayLit(items, _) => exists|i: int|
            0 <= i < items.len() && mentions(#[trigger] items[i], n),
        ExprV::BinOp(l, _, r) => mentions(*l, n) || mentions(*r, n),
        ExprV::UnaryNeg(x, _) | ExprV::UnaryBitNot(x, _) | ExprV::Cast(x, _, _) => mentions(*x, n),
        _ => false,
    }
}

proof fn lemma_either(a: Seq<Seq<char>>, b: Seq<Seq<char>>, n: Seq<char>)
    ensures
        (a + b).contains(n) <==> a.contains(n) || b.contains(n),
{
    if a.contains(n) {
        let i = choose|i: int| 0 <= i < a.len() && a[i] == n;
        assert((a + b)[i] == n);
    }
    if b.contains(n) {
        let i = choose|i: int| 0 <= i < b.len() && b[i] == n;
        assert((a + b)[a.len() + i] == n);
    }
    if (a + b).contains(n) {
        let i = choose|i: int| 0 <= i < (a + b).len() && (a + b)[i] == n;
        if i < a.len() {
            assert(a[i] == n);
        } else {
            assert(b[i - a.len()] == n);
        }
    }
}

proof fn lemma_filtered(s: Seq<Seq<char>>, n: Seq<char>)
    ensures
        s.filter(|b: Seq<char>| refs::identifier(b)).contains(n) <==> refs::identifier(n)
            && s.contains(n),
    decreases s.len(),
{
    let p = |b: Seq<char>| refs::identifier(b);
    reveal(Seq::filter);
    if s.len() > 0 {
        let front = s.drop_last();
        lemma_filtered(front, n);
        let had = front.filter(p);
        let all = s.filter(p);
        if s.contains(n) && n != s.last() {
            let i = choose|i: int| 0 <= i < s.len() && s[i] == n;
            assert(front[i] == n);
        }
        if front.contains(n) {
            let i = choose|i: int| 0 <= i < front.len() && front[i] == n;
            assert(s[i] == n);
        }
        assert(s[s.len() - 1] == s.last());
        if p(s.last()) {
            assert(all == had.push(s.last()));
            if had.contains(n) {
                let i = choose|i: int| 0 <= i < had.len() && had[i] == n;
                assert(all[i] == n);
            }
            if all.contains(n) && n != s.last() {
                let i = choose|i: int| 0 <= i < all.len() && all[i] == n;
                assert(had[i] == n);
            }
            assert(all[had.len() as int] == s.last());
        } else {
            assert(all == had);
        }
    }
}

/// An expression refers to exactly the names that stand in it.
pub proof fn law_references(e: ExprV, n: Seq<char>)
    ensures
        refs::references(e).contains(n) <==> mentions(e, n),
    decreases e, 0nat,
{
    match e {
        ExprV::Ident(x, _) => {
            assert(seq![x][0] == x);
        },
        ExprV::FieldAccess(x, _, _) => {
            assert(seq![x][0] == x);
        },
        ExprV::StringLit(s, _) => {
            lemma_filtered(binding::bodies(s, 0), n);
        },
        ExprV::Call(_, args, _) => {
            lemma_arg_references(args, n);
        },
        ExprV::ArrayLit(items, _) => {
            lemma_item_references(items, n);
        },
        ExprV::BinOp(l, _, r) => {
            law_references(*l, n);
            law_references(*r, n);
            lemma_either(refs::references(*l), refs::references(*r), n);
        },
        ExprV::UnaryNeg(x, _) | ExprV::UnaryBitNot(x, _) | ExprV::Cast(x, _, _) => {
            law_references(*x, n);
        },
        _ => {},
    }
}

proof fn lemma_arg_references(s: Seq<ArgV>, n: Seq<char>)
    ensures
        refs::arg_references(s).contains(n) <==> exists|i: int|
            0 <= i < s.len() && mentions(#[trigger] s[i].value, n),
    decreases s, s.len(),
{
    if s.len() > 0 {
        let front = s.drop_last();
        assert(decreases_to!(s => s.last()));
        assert(decreases_to!(s.last() => s.last().value));
        assert(decreases_to!(s => front));
        lemma_arg_references(front, n);
        law_references(s.last().value, n);
        lemma_either(refs::arg_references(front), refs::references(s.last().value), n);
        if exists|i: int| 0 <= i < front.len() && mentions(#[trigger] front[i].value, n) {
            let i = choose|i: int| 0 <= i < front.len() && mentions(#[trigger] front[i].value, n);
            assert(mentions(s[i].value, n));
        }
        if exists|i: int| 0 <= i < s.len() && mentions(#[trigger] s[i].value, n) {
            let i = choose|i: int| 0 <= i < s.len() && mentions(#[trigger] s[i].value, n);
            if i < front.len() {
                assert(mentions(front[i].value, n));
            }
        }
        if mentions(s.last().value, n) {
            assert(mentions(s[s.len() - 1].value, n));
        }
    }
}

proof fn lemma_item_references(s: Seq<ExprV>, n: Seq<char>)
    ensures
        refs::item_references(s).contains(n) <==> exists|i: int|
            0 <= i < s.len() && mentions(#[trigger] s[i], n),
    decreases s, s.len(),
{
    if s.len() > 0 {
        let front = s.drop_last();
        assert(decreases_to!(s => s.last()));
        assert(decreases_to!(s => front));
        lemma_item_references(front, n);
        law_references(s.last(), n);
        lemma_either(refs::item_references(front), refs::references(s.last()), n);
        if exists|i: int| 0 <= i < front.len() && mentions(#[trigger] front[i], n) {
            let i = choose|i: int| 0 <= i < front.len() && mentions(#[trigger] front[i], n);
            assert(mentions(s[i], n));
        }
        if exists|i: int| 0 <= i < s.len() && mentions(#[trigger] s[i], n) {
            let i = choose|i: int| 0 <= i < s.len() && mentions(#[trigger] s[i], n);
            if i < front.len() {
                assert(mentions(front[i], n));
            }
        }
        if mentions(s.last(), n) {
            assert(mentions(s[s.len() - 1], n));
        }
    }
}

/// Names that are gathered keep those that were there, in their places, and
/// hold every other one of them once.
pub proof fn law_names_gathered(names: Seq<Seq<char>>, more: Seq<Seq<char>>, n: Seq<char>)
    ensures
        ({
            let all = refs::merged(names, more);
            &&& names.len() <= all.len()
            &&& all.take(names.len() as int) == names
            &&& names.no_duplicates() ==> all.no_duplicates()
            &&& all.contains(n) <==> names.contains(n) || more.contains(n)
        }),
    decreases more.len(),
{
    let all = refs::merged(names, more);
    if more.len() == 0 {
        assert(all.take(names.len() as int) =~= names);
    } else {
        let rest = more.drop_last();
        law_names_gathered(names, rest, n);
        let front = refs::merged(names, rest);
        assert(all.take(names.len() as int) =~= front.take(names.len() as int));
        if more.contains(n) && n != more.last() {
            let i = choose|i: int| 0 <= i < more.len() && more[i] == n;
            assert(rest[i] == n);
        }
        if rest.contains(n) {
            let i = choose|i: int| 0 <= i < rest.len() && rest[i] == n;
            assert(more[i] == n);
        }
        assert(more[more.len() - 1] == more.last());
        if !front.contains(more.last()) {
            if front.contains(n) {
                let i = choose|i: int| 0 <= i < front.len() && front[i] == n;
                assert(all[i] == n);
            }
            if all.contains(n) && n != more.last() {
                let i = choose|i: int| 0 <= i < all.len() && all[i] == n;
                assert(front[i] == n);
            }
            assert(all[front.len() as int] == more.last());
        }
    }
}

// ---------------------------------------------------------------------
// The order of names
// ---------------------------------------------------------------------

/// Of two texts that are the same up to a place, the one that ends there
/// comes first, else the one with the smaller character there.
pub proof fn law_where_texts_part(a: Seq<char>, b: Seq<char>, k: int)
    requires
        0 <= k <= a.len(),
        k <= b.len(),
        forall|i: int| 0 <= i < k ==> #[trigger] a[i] == b[i],
    ensures
        k == a.len() && k < b.len() ==> refs::before(a, b) && !refs::before(b, a),
        k < a.len() && k < b.len() && a[k] < b[k] ==> refs::before(a, b) && !refs::before(b, a),
        k == a.len() && k == b.len() ==> !refs::before(a, b),
    decreases k,
{
    if k > 0 {
        assert(a[0] == b[0]);
        let x = a.drop_first();
        let y = b.drop_first();
        assert forall|i: int| 0 <= i < k - 1 implies #[trigger] x[i] == y[i] by {
            assert(a[i + 1] == b[i + 1]);
        }
        law_where_texts_part(x, y, k - 1);
    }
}

// ---------------------------------------------------------------------
// What counts
// ---------------------------------------------------------------------

/// A signature is the first of its name.
pub proof fn law_first_signature_counts(reg: Seq<FuncSig>, name: Seq<char>)
    ensures
        match registry::signature_of(reg, name) {
            Some(sig) => exists|i: int|
                0 <= i < reg.len() && #[trigger] reg[i] == sig && sig.name@ == name && forall|j: int|
                    0 <= j < i ==> (#[trigger] reg[j]).name@ != name,
            None => forall|j: int| 0 <= j < reg.len() ==> (#[trigger] reg[j]).name@ != name,
        },
    decreases reg.len(),
{
    if reg.len() > 0 {
        if reg[0].name@ == name {
            assert(reg[0] == registry::signature_of(reg, name)->Some_0);
        } else {
            let rest = reg.drop_first();
            law_first_signature_counts(rest, name);
            match registry::signature_of(rest, name) {
                Some(sig) => {
                    let i = choose|i: int|
                        0 <= i < rest.len() && #[trigger] rest[i] == sig && sig.name@ == name
                            && forall|j: int| 0 <= j < i ==> (#[trigger] rest[j]).name@ != name;
                    assert(reg[i + 1] == sig);
                    assert forall|j: int| 0 <= j < i + 1 implies (#[trigger] reg[j]).name@
                        != name by {
                        if j > 0 {
                            assert(rest[j - 1] == reg[j]);
                        }
                    }
                },
                None => {
                    assert forall|j: int| 0 <= j < reg.len() implies (#[trigger] reg[j]).name@
                        != name by {
                        if j > 0 {
                            assert(rest[j - 1] == reg[j]);
                        }
                    }
                },
            }
        }
    }
}

/// The signatures of modules stand one module after the other, so that of
/// two modules with a function of one name the first counts.
pub proof fn law_first_module_counts(
    a: Seq<FuncSig>,
    b: Seq<FuncSig>,
    name: Seq<char>,
)
    ensures
        registry::all_signatures(seq![a, b]) == a + b,
        registry::signature_of(registry::all_signatures(seq![a, b]), name)
            == match registry::signature_of(a, name) {
            Some(sig) => Some(sig),
            None => registry::signature_of(b, name),
        },
{
    let none = Seq::<Seq<FuncSig>>::empty();
    assert(seq![a].drop_last() =~= none);
    assert(registry::all_signatures(seq![a].drop_last()) =~= Seq::<FuncSig>::empty());
    assert(registry::all_signatures(seq![a]) =~= a);
    assert(seq![a, b].drop_last() =~= seq![a]);
    lemma_first_of_two(a, b, name);
}

proof fn lemma_first_of_two(a: Seq<FuncSig>, b: Seq<FuncSig>, name: Seq<char>)
    ensures
        registry::signature_of(a + b, name) == match registry::signature_of(a, name) {
            Some(sig) => Some(sig),
            None => registry::signature_of(b, name),
        },
    decreases a.len(),
{
    if a.len() == 0 {
        assert(a + b =~= b);
    } else {
        assert((a + b)[0] == a[0]);
        assert((a + b).drop_first() =~= a.drop_first() + b);
        lemma_first_of_two(a.drop_first(), b, name);
    }
}

/// Every parameter is a wire or a constant, and none is both.
pub proof fn law_parameters_counted(params: Seq<ParamSpec>)
    ensures
        registry::wires_among(params) + registry::consts_among(params).len() == params.len(),
    decreases params.len(),
{
    reveal(Seq::filter);
    if params.len() > 0 {
        law_parameters_counted(params.drop_last());
    }
}

/// The pragmas of two parts of a program are those of the one and then
/// those of the other; a pragma keeps its name and its line.
pub proof fn law_pragmas_in_order(a: Seq<StatementV>, b: Seq<StatementV>)
    ensures
        pragmas::pragmas_of(a + b) == pragmas::pragmas_of(a) + pragmas::pragmas_of(b),
        b.len() == 1 ==> (b[0] matches StatementV::Pragma(name, span) ==> pragmas::pragmas_of(b)
            == seq![PragmaV { name, args: Seq::empty(), line: span.line }]),
        b.len() == 1 && !(b[0] is Pragma) ==> pragmas::pragmas_of(b).len() == 0,
    decreases b.len(),
{
    let x = pragmas::pragmas_of(a);
    if b.len() == 0 {
        assert(a + b =~= a);
        assert(x + pragmas::pragmas_of(b) =~= x);
    } else {
        law_pragmas_in_order(a, b.drop_last());
        assert((a + b).drop_last() =~= a + b.drop_last());
        assert((a + b).last() == b.last());
        assert(pragmas::pragmas_of(a + b) =~= x + pragmas::pragmas_of(b));
        if b.len() == 1 {
            assert(b.drop_last() =~= Seq::<StatementV>::empty());
            assert(pragmas::pragmas_of(b.drop_last()) =~= Seq::<PragmaV>::empty());
            assert(b.last() == b[0]);
        }
    }
}

/// A pragma is known exactly where it asks for something: there is a scope
/// in which it alone makes types or values strict.
pub proof fn law_known_pragmas_ask(p: PragmaV)
    ensures
        pragmas::recognised(p.name) <==> pragmas::types_strict(seq![seq![p]])
            || pragmas::values_strict(seq![seq![p]]),
{
    let chain = seq![seq![p]];
    assert(chain[0] == seq![p]);
    assert(seq![p][0] == p);
    assert forall|n: Seq<char>| #[trigger] pragmas::in_force(chain, n) <==> n == p.name by {
        if n == p.name {
            assert(pragmas::named(chain[0], n));
        }
        if pragmas::in_force(chain, n) {
            let k = choose|k: int| 0 <= k < chain.len() && pragmas::named(#[trigger] chain[k], n);
            assert(chain[k] == seq![p]);
        }
    }
}

} // verus!
