//! The names that an expression refers to.
use crate::chars;
use crate::dsl::ast;
use crate::dsl::ast::{Arg, ArgV, Expr, ExprV};
use crate::dsl::binding;
use crate::dsl::compiler;
use vstd::prelude::*;

verus! {

/// Whether a text is a name: a letter or an underscore, and letters, digits
/// and underscores after it.
pub open spec fn identifier(s: Seq<char>) -> bool {
    s.len() > 0 && (chars::is_alpha(s[0]) || s[0] == '_') && (forall|i: int|
        0 <= i < s.len() ==> chars::is_word(#[trigger] s[i]))
}

/// The names that an expression refers to, in the order in which they
/// stand. A text refers to the names between its braces, a projection to
/// its source.
pub open spec fn references(e: ExprV) -> Seq<Seq<char>>
    decreases e, 0nat,
{
    match e {
        ExprV::IntLit(_, _) => Seq::empty(),
        ExprV::FloatLit(_, _, _) => Seq::empty(),
        ExprV::StringLit(s, _) => binding::bodies(s, 0).filter(
            |b: Seq<char>| identifier(b),
        ),
        ExprV::Ident(n, _) => seq![n],
        ExprV::Call(_, args, _) => arg_references(args),
        ExprV::BinOp(l, _, r) => references(*l) + references(*r),
        ExprV::UnaryNeg(x, _) => references(*x),
        ExprV::UnaryBitNot(x, _) => references(*x),
        ExprV::ArrayLit(items, _) => item_references(items),
        ExprV::Cast(x, _, _) => references(*x),
        ExprV::FieldAccess(source, _, _) => seq![source],
    }
}

/// The names that a run of arguments refers to.
pub open spec fn arg_references(s: Seq<ArgV>) -> Seq<Seq<char>>
    decreases s, s.len(),
{
    if s.len() == 0 {
        Seq::empty()
    } else {
        arg_references(s.drop_last()) + references(s.last().value)
    }
}

/// The names that a run of expressions refers to.
pub open spec fn item_references(s: Seq<ExprV>) -> Seq<Seq<char>>
    decreases s, s.len(),
{
    if s.len() == 0 {
        Seq::empty()
    } else {
        item_references(s.drop_last()) + references(s.last())
    }
}

/// Whether `s` is a name.
pub fn is_identifier(s: &Vec<char>) -> (r: bool)
    ensures
        r == identifier(s@),
{
    if s.len() == 0 || !(chars::alpha(s[0]) || s[0] == '_') {
        return false;
    }
    let mut i: usize = 0;
    while i < s.len()
        invariant
            i <= s@.len(),
            forall|k: int| 0 <= k < i ==> chars::is_word(#[trigger] s@[k]),
        decreases s.len() - i,
    {
        if !chars::word(s[i]) {
            return false;
        }
        i = i + 1;
    }
    true
}

/// Adds the names between the braces of `text` to `out`.
fn gather_text(text: &str, out: &mut Vec<String>)
    ensures
        chars::texts(final(out)@) == chars::texts(old(out)@) + binding::bodies(text@, 0).filter(
            |b: Seq<char>| identifier(b),
        ),
{
    let all: Vec<Vec<char>> = binding::brace_bodies(&chars::chars_of(text));
    let ghost shown = binding::bodies(text@, 0);
    let ghost keep = |b: Seq<char>| identifier(b);
    let ghost start = chars::texts(out@);
    let mut i: usize = 0;
    proof {
        reveal(Seq::filter);
        assert(start + shown.take(0).filter(keep) =~= start);
    }
    while i < all.len()
        invariant
            i <= all@.len(),
            shown == binding::bodies(text@, 0),
            keep == |b: Seq<char>| identifier(b),
            all@.len() == shown.len(),
            forall|k: int| 0 <= k < all@.len() ==> (#[trigger] all@[k])@ == shown[k],
            chars::texts(out@) == start + shown.take(i as int).filter(keep),
        decreases all.len() - i,
    {
        proof {
            reveal(Seq::filter);
            assert(shown.take(i + 1).drop_last() =~= shown.take(i as int));
            assert(shown.take(i + 1).last() == all@[i as int]@);
        }
        if is_identifier(&all[i]) {
            compiler::add_name(out, chars::string_of(&all[i]).as_str());
            assert((start + shown.take(i as int).filter(keep)).push(shown[i as int]) =~= start
                + shown.take(i + 1).filter(keep));
        }
        i = i + 1;
    }
    assert(shown.take(i as int) =~= shown);
}

/// Adds the names that `args` refer to.
fn gather_args(args: &Vec<Arg>, out: &mut Vec<String>)
    ensures
        chars::texts(final(out)@) == chars::texts(old(out)@) + arg_references(
            ast::arg_views(args@),
        ),
    decreases args,
{
    let ghost all = ast::arg_views(args@);
    let ghost start = chars::texts(out@);
    let mut i: usize = 0;
    proof {
        ast::lemma_arg_views(args@);
        assert(all.take(0) =~= Seq::<ArgV>::empty());
        assert(start + arg_references(all.take(0)) =~= start);
    }
    while i < args.len()
        invariant
            i <= args@.len(),
            all == ast::arg_views(args@),
            all.len() == args@.len(),
            forall|k: int| 0 <= k < args@.len() ==> #[trigger] all[k] == args@[k]@,
            chars::texts(out@) == start + arg_references(all.take(i as int)),
        decreases args.len() - i,
    {
        proof {
            assert(all.take(i + 1).drop_last() =~= all.take(i as int));
            assert(all.take(i + 1).last() == all[i as int]);
            assert(decreases_to!(args@ => args@[i as int]));
            assert(decreases_to!(*args => args@));
        }
        match &args[i] {
            Arg::Positional(e) => gather(e, out),
            Arg::Named(_, e) => gather(e, out),
        }
        assert((start + arg_references(all.take(i as int))) + references(all[i as int].value)
            =~= start + arg_references(all.take(i + 1)));
        i = i + 1;
    }
    assert(all.take(i as int) =~= all);
}

/// Adds the names that `items` refer to.
fn gather_items(items: &Vec<Expr>, out: &mut Vec<String>)
    ensures
        chars::texts(final(out)@) == chars::texts(old(out)@) + item_references(
            ast::expr_views(items@),
        ),
    decreases items,
{
    let ghost all = ast::expr_views(items@);
    let ghost start = chars::texts(out@);
    let mut i: usize = 0;
    proof {
        ast::lemma_expr_views(items@);
        assert(all.take(0) =~= Seq::<ExprV>::empty());
        assert(start + item_references(all.take(0)) =~= start);
    }
    while i < items.len()
        invariant
            i <= items@.len(),
            all == ast::expr_views(items@),
            all.len() == items@.len(),
            forall|k: int| 0 <= k < items@.len() ==> #[trigger] all[k] == items@[k]@,
            chars::texts(out@) == start + item_references(all.take(i as int)),
        decreases items.len() - i,
    {
        proof {
            assert(all.take(i + 1).drop_last() =~= all.take(i as int));
            assert(all.take(i + 1).last() == all[i as int]);
            assert(decreases_to!(items@ => items@[i as int]));
            assert(decreases_to!(*items => items@));
        }
        gather(&items[i], out);
        assert((start + item_references(all.take(i as int))) + references(all[i as int]) =~= start
            + item_references(all.take(i + 1)));
        i = i + 1;
    }
    assert(all.take(i as int) =~= all);
}

/// Adds the names that `expr` refers to, each as often as it stands there.
pub fn gather(expr: &Expr, out: &mut Vec<String>)
    ensures
        chars::texts(final(out)@) == chars::texts(old(out)@) + references(expr@),
    decreases expr,
{
    let ghost start = chars::texts(out@);
    match expr {
        Expr::IntLit(_, _) => {
            assert(start + references(expr@) =~= start);
        },
        Expr::FloatLit(_, _) => {
            assert(start + references(expr@) =~= start);
        },
        Expr::StringLit(s, _) => gather_text(s.as_str(), out),
        Expr::Ident(n, _) => {
            compiler::add_name(out, n.as_str());
            assert(start.push(n@) =~= start + seq![n@]);
        },
        Expr::Call(c) => {
            assert(decreases_to!(*expr => *c));
            assert(decreases_to!(*c => c.args));
            gather_args(&c.args, out);
        },
        Expr::BinOp(l, _, r) => {
            gather(l, out);
            gather(r, out);
            assert((start + references(l@)) + references(r@) =~= start + (references(l@)
                + references(r@)));
        },
        Expr::UnaryNeg(x, _) => gather(x, out),
        Expr::UnaryBitNot(x, _) => gather(x, out),
        Expr::ArrayLit(items, _) => gather_items(items, out),
        Expr::Cast(x, _, _) => gather(x, out),
        Expr::FieldAccess { source, .. } => {
            compiler::add_name(out, source.as_str());
            assert(start.push(source@) =~= start + seq![source@]);
        },
    }
}

/// Names with more of them, each once.
pub open spec fn merged(names: Seq<Seq<char>>, more: Seq<Seq<char>>) -> Seq<Seq<char>>
    decreases more.len(),
{
    if more.len() == 0 {
        names
    } else {
        let front = merged(names, more.drop_last());
        if front.contains(more.last()) {
            front
        } else {
            front.push(more.last())
        }
    }
}

/// Adds the names that `expr` refers to, each once, where it is not there
/// yet.
pub fn collect_expr_references(expr: &Expr, out: &mut Vec<String>)
    ensures
        chars::texts(final(out)@) == merged(chars::texts(old(out)@), references(expr@)),
{
    let mut found: Vec<String> = Vec::new();
    assert(chars::texts(found@) =~= Seq::<Seq<char>>::empty());
    gather(expr, &mut found);
    let ghost all = chars::texts(found@);
    let ghost start = chars::texts(out@);
    assert(Seq::<Seq<char>>::empty() + references(expr@) =~= references(expr@));
    assert(all.take(0) =~= Seq::<Seq<char>>::empty());
    let mut i: usize = 0;
    while i < found.len()
        invariant
            i <= found@.len(),
            all == chars::texts(found@),
            chars::texts(out@) == merged(start, all.take(i as int)),
        decreases found.len() - i,
    {
        assert(all.take(i + 1).drop_last() =~= all.take(i as int));
        assert(all.take(i + 1).last() == found@[i as int]@);
        if !compiler::listed(out, found[i].as_str()) {
            compiler::add_name(out, found[i].as_str());
        }
        i = i + 1;
    }
    assert(all.take(i as int) =~= all);
}

/// Whether `expr` refers to a name.
pub fn has_references(expr: &Expr) -> (r: bool)
    ensures
        r == (references(expr@).len() > 0),
{
    let mut found: Vec<String> = Vec::new();
    assert(chars::texts(found@) =~= Seq::<Seq<char>>::empty());
    gather(expr, &mut found);
    assert(Seq::<Seq<char>>::empty() + references(expr@) =~= references(expr@));
    assert(chars::texts(found@).len() == found@.len());
    found.len() > 0
}

// ---------------------------------------------------------------------
// Names in order
// ---------------------------------------------------------------------

/// Whether a text comes before another, by their characters.
pub open spec fn before(a: Seq<char>, b: Seq<char>) -> bool
    decreases a.len(),
{
    if b.len() == 0 {
        false
    } else if a.len() == 0 {
        true
    } else if a[0] == b[0] {
        before(a.drop_first(), b.drop_first())
    } else {
        a[0] < b[0]
    }
}

/// A run in order with one more name; without it where it is there.
pub open spec fn inserted(s: Seq<Seq<char>>, x: Seq<char>) -> Seq<Seq<char>>
    decreases s.len(),
{
    if s.len() == 0 {
        seq![x]
    } else if s.last() == x {
        s
    } else if before(s.last(), x) {
        s.push(x)
    } else {
        inserted(s.drop_last(), x).push(s.last())
    }
}

/// The names of a run in order, each once.
pub open spec fn sorted(s: Seq<Seq<char>>) -> Seq<Seq<char>>
    decreases s.len(),
{
    if s.len() == 0 {
        Seq::empty()
    } else {
        inserted(sorted(s.drop_last()), s.last())
    }
}

/// Whether a run of names is in order, each once.
pub open spec fn ascending(s: Seq<Seq<char>>) -> bool {
    forall|i: int, j: int| 0 <= i < j < s.len() ==> before(#[trigger] s[i], #[trigger] s[j])
}

/// Whether `a` comes before `b`.
fn comes_before(a: &str, b: &str) -> (r: bool)
    ensures
        r == before(a@, b@),
{
    let x: Vec<char> = chars::chars_of(a);
    let y: Vec<char> = chars::chars_of(b);
    let mut i: usize = 0;
    assert(x@.skip(0) =~= x@);
    assert(y@.skip(0) =~= y@);
    while i < x.len() && i < y.len()
        invariant
            i <= x@.len(),
            i <= y@.len(),
            before(a@, b@) == before(x@.skip(i as int), y@.skip(i as int)),
        decreases x.len() - i,
    {
        assert(x@.skip(i as int)[0] == x@[i as int]);
        assert(y@.skip(i as int)[0] == y@[i as int]);
        assert(x@.skip(i as int).drop_first() =~= x@.skip(i + 1));
        assert(y@.skip(i as int).drop_first() =~= y@.skip(i + 1));
        if x[i] != y[i] {
            return x[i] < y[i];
        }
        i = i + 1;
    }
    i < y.len()
}

/// Puts `name` into its place in `out`, unless it is there.
fn insert_name(out: &mut Vec<String>, name: &str)
    ensures
        chars::texts(final(out)@) == inserted(chars::texts(old(out)@), name@),
{
    let ghost all = chars::texts(out@);
    let mut i: usize = out.len();
    assert(all.take(i as int) =~= all);
    assert(inserted(all, name@) =~= inserted(all.take(i as int), name@) + all.skip(i as int));
    while i > 0
        invariant
            i <= out@.len(),
            out@ == old(out)@,
            all == chars::texts(out@),
            inserted(all, name@) == inserted(all.take(i as int), name@) + all.skip(i as int),
        ensures
            i <= out@.len(),
            out@ == old(out)@,
            inserted(all.take(i as int), name@) == all.take(i as int).push(name@),
            inserted(all, name@) == inserted(all.take(i as int), name@) + all.skip(i as int),
        decreases i,
    {
        let ghost front = all.take(i as int);
        assert(front.drop_last() =~= all.take(i - 1));
        assert(front.last() == out@[i - 1]@);
        if *out[i - 1].as_str() == *name {
            assert(front + all.skip(i as int) =~= all);
            return;
        }
        if comes_before(out[i - 1].as_str(), name) {
            break;
        }
        assert(inserted(all.take(i - 1), name@).push(all[i - 1]) + all.skip(i as int)
            =~= inserted(all.take(i - 1), name@) + all.skip(i - 1));
        i = i - 1;
    }
    out.insert(i, name.to_owned());
    assert(chars::texts(out@) =~= all.take(i as int).push(name@) + all.skip(i as int));
}

/// The names of `names` in order, each once.
pub fn sort_names(names: &Vec<String>) -> (r: Vec<String>)
    ensures
        chars::texts(r@) == sorted(chars::texts(names@)),
{
    let ghost all = chars::texts(names@);
    let mut out: Vec<String> = Vec::new();
    let mut i: usize = 0;
    assert(all.take(0) =~= Seq::<Seq<char>>::empty());
    assert(chars::texts(out@) =~= Seq::<Seq<char>>::empty());
    while i < names.len()
        invariant
            i <= names@.len(),
            all == chars::texts(names@),
            chars::texts(out@) == sorted(all.take(i as int)),
        decreases names.len() - i,
    {
        assert(all.take(i + 1).drop_last() =~= all.take(i as int));
        assert(all.take(i + 1).last() == names@[i as int]@);
        insert_name(&mut out, names[i].as_str());
        i = i + 1;
    }
    assert(all.take(i as int) =~= all);
    out
}

proof fn lemma_before_trans(a: Seq<char>, b: Seq<char>, c: Seq<char>)
    requires
        before(a, b),
        before(b, c),
    ensures
        before(a, c),
    decreases a.len(),
{
    if a.len() > 0 && a[0] == b[0] && b[0] == c[0] {
        lemma_before_trans(a.drop_first(), b.drop_first(), c.drop_first());
    }
}

proof fn lemma_before_total(a: Seq<char>, b: Seq<char>)
    ensures
        a == b || before(a, b) || before(b, a),
    decreases a.len(),
{
    if a.len() == 0 || b.len() == 0 {
        if a.len() == b.len() {
            assert(a =~= b);
        }
    } else if a[0] == b[0] {
        lemma_before_total(a.drop_first(), b.drop_first());
        if a.drop_first() == b.drop_first() {
            assert(a =~= seq![a[0]] + a.drop_first());
            assert(b =~= seq![b[0]] + b.drop_first());
        }
    }
}

proof fn lemma_inserted(s: Seq<Seq<char>>, x: Seq<char>)
    requires
        ascending(s),
    ensures
        ascending(inserted(s, x)),
        forall|y: Seq<char>|
            #[trigger] inserted(s, x).contains(y) <==> (s.contains(y) || y == x),
    decreases s.len(),
{
    let r = inserted(s, x);
    if s.len() == 0 {
        assert(r[0] == x);
    } else if s.last() == x {
        assert(s[s.len() - 1] == x);
    } else if before(s.last(), x) {
        assert forall|i: int, j: int| 0 <= i < j < r.len() implies before(
            #[trigger] r[i],
            #[trigger] r[j],
        ) by {
            if j == s.len() {
                if i < s.len() - 1 {
                    assert(before(s[i], s[s.len() - 1]));
                    lemma_before_trans(s[i], s.last(), x);
                }
            } else {
                assert(before(s[i], s[j]));
            }
        }
        assert(r[s.len() as int] == x);
        assert forall|y: Seq<char>| r.contains(y) <==> (s.contains(y) || y == x) by {
            if s.contains(y) {
                let k = s.index_of(y);
                assert(r[k] == y);
            }
            if r.contains(y) {
                let k = r.index_of(y);
                if k < s.len() {
                    assert(s[k] == y);
                }
            }
        }
    } else {
        let front = s.drop_last();
        lemma_before_total(s.last(), x);
        assert(ascending(front));
        lemma_inserted(front, x);
        let q = inserted(front, x);
        assert(r == q.push(s.last()));
        assert forall|i: int, j: int| 0 <= i < j < r.len() implies before(
            #[trigger] r[i],
            #[trigger] r[j],
        ) by {
            if j == q.len() {
                assert(q.contains(q[i]));
                if q[i] != x {
                    assert(front.contains(q[i]));
                    let k = front.index_of(q[i]);
                    assert(s[k] == q[i]);
                    assert(before(s[k], s[s.len() - 1]));
                }
            } else {
                assert(before(q[i], q[j]));
            }
        }
        assert forall|y: Seq<char>| r.contains(y) <==> (s.contains(y) || y == x) by {
            if r.contains(y) {
                let k = r.index_of(y);
                if k < q.len() {
                    assert(q[k] == y);
                    assert(q.contains(y));
                    if front.contains(y) {
                        let m = front.index_of(y);
                        assert(s[m] == y);
                    }
                } else {
                    assert(s[s.len() - 1] == y);
                }
            }
            if s.contains(y) || y == x {
                if y == x || front.contains(y) {
                    assert(inserted(front, x).contains(y));
                    let k = q.index_of(y);
                    assert(r[k] == y);
                } else {
                    let m = s.index_of(y);
                    if m < front.len() {
                        assert(front[m] == y);
                    }
                    assert(r[q.len() as int] == y);
                }
            }
        }
    }
}

/// Sorting gives the same names, in order and each once.
pub proof fn law_sorted(s: Seq<Seq<char>>)
    ensures
        ascending(sorted(s)),
        forall|y: Seq<char>| sorted(s).contains(y) <==> s.contains(y),
    decreases s.len(),
{
    if s.len() > 0 {
        let front = s.drop_last();
        law_sorted(front);
        lemma_inserted(sorted(front), s.last());
        assert forall|y: Seq<char>| sorted(s).contains(y) <==> s.contains(y) by {
            if s.contains(y) {
                let k = s.index_of(y);
                if k < front.len() {
                    assert(front[k] == y);
                }
            }
            if front.contains(y) {
                let k = front.index_of(y);
                assert(s[k] == y);
            }
            if y == s.last() {
                assert(s[s.len() - 1] == y);
            }
        }
    }
}

} // verus!
