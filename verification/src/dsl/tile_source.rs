//! What a template reads off the sources of its projections.
use crate::chars;
use crate::comprehension::ast;
use crate::comprehension::ast::{CompV, Comprehension};
use crate::comprehension::source::{Source, SourceV};
use crate::dsl::compiler;
use crate::dsl::tile;
use vstd::prelude::*;

verus! {

/// The contents of a run of pairs of texts.
pub open spec fn pair_views(s: Seq<(String, String)>) -> Seq<(Seq<char>, Seq<char>)> {
    Seq::new(s.len(), |i: int| (s[i].0@, s[i].1@))
}

/// The names and the expressions of the clauses that call a generator.
pub open spec fn generators(c: CompV) -> Seq<(Seq<char>, Seq<char>)>
    decreases c, 0nat,
{
    match c {
        CompV::Clause(name, SourceV::Generator(expr, _)) => seq![(name, expr)],
        CompV::Clause(_, _) => Seq::empty(),
        CompV::Cartesian(children) => all_generators(children),
        CompV::Zip(children, _) => all_generators(children),
        CompV::Union(children) => all_generators(children),
        CompV::Filter(child, _) => generators(*child),
        CompV::Order(child, _, _) => generators(*child),
    }
}

/// The same over a run of comprehensions.
pub open spec fn all_generators(s: Seq<CompV>) -> Seq<(Seq<char>, Seq<char>)>
    decreases s, s.len(),
{
    if s.len() == 0 {
        Seq::empty()
    } else {
        all_generators(s.drop_last()) + generators(s.last())
    }
}

/// The conditions of a comprehension, from the outermost in.
pub open spec fn predicates(c: CompV) -> Seq<Seq<char>>
    decreases c, 0nat,
{
    match c {
        CompV::Clause(_, _) => Seq::empty(),
        CompV::Cartesian(children) => all_predicates(children),
        CompV::Zip(children, _) => all_predicates(children),
        CompV::Union(children) => all_predicates(children),
        CompV::Filter(child, p) => seq![p] + predicates(*child),
        CompV::Order(child, _, _) => predicates(*child),
    }
}

/// The same over a run of comprehensions.
pub open spec fn all_predicates(s: Seq<CompV>) -> Seq<Seq<char>>
    decreases s, s.len(),
{
    if s.len() == 0 {
        Seq::empty()
    } else {
        all_predicates(s.drop_last()) + predicates(s.last())
    }
}

/// The names that the clauses bind.
pub open spec fn element_names(c: CompV) -> Seq<Seq<char>>
    decreases c, 0nat,
{
    match c {
        CompV::Clause(name, _) => seq![name],
        CompV::Cartesian(children) => all_element_names(children),
        CompV::Zip(children, _) => all_element_names(children),
        CompV::Union(children) => all_element_names(children),
        CompV::Filter(child, _) => element_names(*child),
        CompV::Order(child, _, _) => element_names(*child),
    }
}

/// The same over a run of comprehensions.
pub open spec fn all_element_names(s: Seq<CompV>) -> Seq<Seq<char>>
    decreases s, s.len(),
{
    if s.len() == 0 {
        Seq::empty()
    } else {
        all_element_names(s.drop_last()) + element_names(s.last())
    }
}

/// Whether a clause draws on a generator or a parameter list whose count
/// is not given.
pub open spec fn unhinted(c: CompV) -> bool
    decreases c, 0nat,
{
    match c {
        CompV::Clause(_, SourceV::Generator(_, hint)) => hint is None,
        CompV::Clause(_, SourceV::WorkloadParamList(_, hint)) => hint is None,
        CompV::Clause(_, _) => false,
        CompV::Cartesian(children) => any_unhinted(children),
        CompV::Zip(children, _) => any_unhinted(children),
        CompV::Union(children) => any_unhinted(children),
        CompV::Filter(child, _) => unhinted(*child),
        CompV::Order(child, _, _) => unhinted(*child),
    }
}

/// Whether one of a run of comprehensions does.
pub open spec fn any_unhinted(s: Seq<CompV>) -> bool
    decreases s, s.len(),
{
    s.len() > 0 && (any_unhinted(s.drop_last()) || unhinted(s.last()))
}

/// Adds the names and the expressions of the clauses of `c` that call a
/// generator.
fn gather_generators(c: &Comprehension, out: &mut Vec<(String, String)>)
    ensures
        pair_views(final(out)@) == pair_views(old(out)@) + generators(ast::comp_view(*c)),
    decreases c, 0nat,
{
    let ghost start = pair_views(out@);
    match c {
        Comprehension::Clause { name, source } => match source {
            Source::Generator { expr, .. } => {
                let ghost before = out@;
                out.push((name.clone(), expr.clone()));
                assert(pair_views(out@) =~= pair_views(before) + seq![(name@, expr@)]);
            },
            _ => {
                assert(start + Seq::<(Seq<char>, Seq<char>)>::empty() =~= start);
            },
        },
        Comprehension::Cartesian { children } => gather_all_generators(children, out),
        Comprehension::Zip { children, .. } => gather_all_generators(children, out),
        Comprehension::Union { children } => gather_all_generators(children, out),
        Comprehension::Filter { child, .. } => gather_generators(child, out),
        Comprehension::Order { child, .. } => gather_generators(child, out),
    }
}

/// The same over a run of comprehensions.
fn gather_all_generators(v: &Vec<Comprehension>, out: &mut Vec<(String, String)>)
    ensures
        pair_views(final(out)@) == pair_views(old(out)@) + all_generators(ast::comp_views(v@)),
    decreases v, 1nat,
{
    let ghost all = ast::comp_views(v@);
    let ghost start = pair_views(out@);
    let mut i: usize = 0;
    proof {
        ast::lemma_comp_views(v@);
        assert(all.take(0) =~= Seq::<CompV>::empty());
        assert(start + all_generators(all.take(0)) =~= start);
    }
    while i < v.len()
        invariant
            i <= v@.len(),
            all == ast::comp_views(v@),
            all.len() == v@.len(),
            forall|k: int| 0 <= k < v@.len() ==> #[trigger] all[k] == ast::comp_view(v@[k]),
            pair_views(out@) == start + all_generators(all.take(i as int)),
        decreases v.len() - i,
    {
        assert(decreases_to!(v@ => v@[i as int]));
        assert(decreases_to!(*v => v@));
        gather_generators(&v[i], out);
        assert(all.take(i + 1).drop_last() =~= all.take(i as int));
        assert(all.take(i + 1).last() == all[i as int]);
        assert(start + all_generators(all.take(i as int)) + generators(all[i as int]) =~= start
            + all_generators(all.take(i + 1)));
        i = i + 1;
    }
    assert(all.take(i as int) =~= all);
}

/// The names and the expressions of the clauses that call a generator.
pub fn generator_clauses(c: &Comprehension) -> (r: Vec<(String, String)>)
    ensures
        pair_views(r@) == generators(ast::comp_view(*c)),
{
    let mut out: Vec<(String, String)> = Vec::new();
    let ghost found = generators(ast::comp_view(*c));
    assert(pair_views(out@) + found =~= found);
    gather_generators(c, &mut out);
    out
}

/// Adds the conditions of `c`.
fn gather_predicates(c: &Comprehension, out: &mut Vec<String>)
    ensures
        chars::texts(final(out)@) == chars::texts(old(out)@) + predicates(ast::comp_view(*c)),
    decreases c, 0nat,
{
    let ghost start = chars::texts(out@);
    match c {
        Comprehension::Clause { .. } => {
            assert(start + Seq::<Seq<char>>::empty() =~= start);
        },
        Comprehension::Cartesian { children } => gather_all_predicates(children, out),
        Comprehension::Zip { children, .. } => gather_all_predicates(children, out),
        Comprehension::Union { children } => gather_all_predicates(children, out),
        Comprehension::Filter { child, predicate } => {
            compiler::add_name(out, predicate.as_str());
            gather_predicates(child, out);
            assert(start.push(predicate@) + predicates(ast::comp_view(**child)) =~= start + (
            seq![predicate@] + predicates(ast::comp_view(**child))));
        },
        Comprehension::Order { child, .. } => gather_predicates(child, out),
    }
}

/// The same over a run of comprehensions.
fn gather_all_predicates(v: &Vec<Comprehension>, out: &mut Vec<String>)
    ensures
        chars::texts(final(out)@) == chars::texts(old(out)@) + all_predicates(
            ast::comp_views(v@),
        ),
    decreases v, 1nat,
{
    let ghost all = ast::comp_views(v@);
    let ghost start = chars::texts(out@);
    let mut i: usize = 0;
    proof {
        ast::lemma_comp_views(v@);
        assert(all.take(0) =~= Seq::<CompV>::empty());
        assert(start + all_predicates(all.take(0)) =~= start);
    }
    while i < v.len()
        invariant
            i <= v@.len(),
            all == ast::comp_views(v@),
            all.len() == v@.len(),
            forall|k: int| 0 <= k < v@.len() ==> #[trigger] all[k] == ast::comp_view(v@[k]),
            chars::texts(out@) == start + all_predicates(all.take(i as int)),
        decreases v.len() - i,
    {
        assert(decreases_to!(v@ => v@[i as int]));
        assert(decreases_to!(*v => v@));
        gather_predicates(&v[i], out);
        assert(all.take(i + 1).drop_last() =~= all.take(i as int));
        assert(all.take(i + 1).last() == all[i as int]);
        assert(start + all_predicates(all.take(i as int)) + predicates(all[i as int]) =~= start
            + all_predicates(all.take(i + 1)));
        i = i + 1;
    }
    assert(all.take(i as int) =~= all);
}

/// The conditions of a comprehension, from the outermost in.
pub fn filter_predicates(c: &Comprehension) -> (r: Vec<String>)
    ensures
        chars::texts(r@) == predicates(ast::comp_view(*c)),
{
    let mut out: Vec<String> = Vec::new();
    let ghost found = predicates(ast::comp_view(*c));
    assert(chars::texts(out@) + found =~= found);
    gather_predicates(c, &mut out);
    out
}

/// Adds the names that the clauses of `c` bind.
fn gather_elements(c: &Comprehension, out: &mut Vec<String>)
    ensures
        chars::texts(final(out)@) == chars::texts(old(out)@) + element_names(ast::comp_view(*c)),
    decreases c, 0nat,
{
    let ghost start = chars::texts(out@);
    match c {
        Comprehension::Clause { name, .. } => {
            compiler::add_name(out, name.as_str());
            assert(start.push(name@) =~= start + seq![name@]);
        },
        Comprehension::Cartesian { children } => gather_all_elements(children, out),
        Comprehension::Zip { children, .. } => gather_all_elements(children, out),
        Comprehension::Union { children } => gather_all_elements(children, out),
        Comprehension::Filter { child, .. } => gather_elements(child, out),
        Comprehension::Order { child, .. } => gather_elements(child, out),
    }
}

/// The same over a run of comprehensions.
fn gather_all_elements(v: &Vec<Comprehension>, out: &mut Vec<String>)
    ensures
        chars::texts(final(out)@) == chars::texts(old(out)@) + all_element_names(
            ast::comp_views(v@),
        ),
    decreases v, 1nat,
{
    let ghost all = ast::comp_views(v@);
    let ghost start = chars::texts(out@);
    let mut i: usize = 0;
    proof {
        ast::lemma_comp_views(v@);
        assert(all.take(0) =~= Seq::<CompV>::empty());
        assert(start + all_element_names(all.take(0)) =~= start);
    }
    while i < v.len()
        invariant
            i <= v@.len(),
            all == ast::comp_views(v@),
            all.len() == v@.len(),
            forall|k: int| 0 <= k < v@.len() ==> #[trigger] all[k] == ast::comp_view(v@[k]),
            chars::texts(out@) == start + all_element_names(all.take(i as int)),
        decreases v.len() - i,
    {
        assert(decreases_to!(v@ => v@[i as int]));
        assert(decreases_to!(*v => v@));
        gather_elements(&v[i], out);
        assert(all.take(i + 1).drop_last() =~= all.take(i as int));
        assert(all.take(i + 1).last() == all[i as int]);
        assert(start + all_element_names(all.take(i as int)) + element_names(all[i as int])
            =~= start + all_element_names(all.take(i + 1)));
        i = i + 1;
    }
    assert(all.take(i as int) =~= all);
}

/// The names that the clauses bind.
pub fn clause_names(c: &Comprehension) -> (r: Vec<String>)
    ensures
        chars::texts(r@) == element_names(ast::comp_view(*c)),
{
    let mut out: Vec<String> = Vec::new();
    let ghost found = element_names(ast::comp_view(*c));
    assert(chars::texts(out@) + found =~= found);
    gather_elements(c, &mut out);
    out
}

/// Whether a clause draws on a generator or a parameter list whose count
/// is not given.
pub fn has_unhinted_source(c: &Comprehension) -> (r: bool)
    ensures
        r == unhinted(ast::comp_view(*c)),
    decreases c, 0nat,
{
    match c {
        Comprehension::Clause { source, .. } => match source {
            Source::Generator { cardinality_hint, .. } => cardinality_hint.is_none(),
            Source::WorkloadParamList { len_hint, .. } => len_hint.is_none(),
            _ => false,
        },
        Comprehension::Cartesian { children } => has_unhinted(children),
        Comprehension::Zip { children, .. } => has_unhinted(children),
        Comprehension::Union { children } => has_unhinted(children),
        Comprehension::Filter { child, .. } => has_unhinted_source(child),
        Comprehension::Order { child, .. } => has_unhinted_source(child),
    }
}

/// One unhinted comprehension makes every longer run so.
proof fn lemma_unhinted(s: Seq<CompV>, k: int)
    requires
        0 <= k <= s.len(),
        any_unhinted(s.take(k)),
    ensures
        any_unhinted(s),
    decreases s.len(),
{
    if k == s.len() {
        assert(s.take(k) =~= s);
    } else {
        assert(s.drop_last().take(k) =~= s.take(k));
        lemma_unhinted(s.drop_last(), k);
    }
}

/// Whether one of a run of comprehensions does.
fn has_unhinted(v: &Vec<Comprehension>) -> (r: bool)
    ensures
        r == any_unhinted(ast::comp_views(v@)),
    decreases v, 1nat,
{
    let ghost all = ast::comp_views(v@);
    let mut i: usize = 0;
    proof {
        ast::lemma_comp_views(v@);
        assert(all.take(0) =~= Seq::<CompV>::empty());
    }
    while i < v.len()
        invariant
            i <= v@.len(),
            all == ast::comp_views(v@),
            all.len() == v@.len(),
            forall|k: int| 0 <= k < v@.len() ==> #[trigger] all[k] == ast::comp_view(v@[k]),
            !any_unhinted(all.take(i as int)),
        decreases v.len() - i,
    {
        assert(decreases_to!(v@ => v@[i as int]));
        assert(decreases_to!(*v => v@));
        assert(all.take(i + 1).drop_last() =~= all.take(i as int));
        assert(all.take(i + 1).last() == all[i as int]);
        if has_unhinted_source(&v[i]) {
            proof {
                lemma_unhinted(all, i + 1);
            }
            return true;
        }
        i = i + 1;
    }
    assert(all.take(i as int) =~= all);
    false
}

// ---------------------------------------------------------------------
// Names in texts
// ---------------------------------------------------------------------

/// The names in braces from `i` on.
pub open spec fn placeholders(s: Seq<char>, i: int) -> Seq<Seq<char>>
    decreases s.len() - i,
{
    if i < 0 || i >= s.len() {
        Seq::empty()
    } else {
        let j = tile::word_end(s, i + 1);
        if s[i] == '{' && i + 1 < j < s.len() && s[j] == '}' {
            seq![s.subrange(i + 1, j)] + placeholders(s, j + 1)
        } else {
            placeholders(s, i + 1)
        }
    }
}

/// The names in braces that stand in `text`, in order.
pub fn placeholder_names(text: &str) -> (r: Vec<String>)
    ensures
        chars::texts(r@) == placeholders(text@, 0),
{
    let s: Vec<char> = chars::chars_of(text);
    let mut out: Vec<String> = Vec::new();
    let mut i: usize = 0;
    assert(chars::texts(out@) + placeholders(text@, 0) =~= placeholders(text@, 0));
    while i < s.len()
        invariant
            i <= s@.len(),
            s@ == text@,
            chars::texts(out@) + placeholders(text@, i as int) == placeholders(text@, 0),
        decreases s.len() - i,
    {
        let ghost before = chars::texts(out@);
        if s[i] == '{' {
            let j: usize = tile::find_word_end(&s, i + 1);
            if j > i + 1 && j < s.len() && s[j] == '}' {
                let name: String = chars::slice_string(&s, i + 1, j);
                compiler::add_name(&mut out, name.as_str());
                assert(before.push(name@) + placeholders(text@, j + 1) =~= before + (seq![name@]
                    + placeholders(text@, j + 1)));
                i = j;
            }
        }
        i = i + 1;
    }
    assert(chars::texts(out@) + placeholders(text@, i as int) =~= chars::texts(out@));
    out
}

/// How a character stands in a string of the language.
pub open spec fn string_char(c: char) -> Seq<char> {
    if c == '\\' {
        seq!['\\', '\\']
    } else if c == '"' {
        seq!['\\', '"']
    } else if c == '\n' {
        seq!['\\', 'n']
    } else if c == '\t' {
        seq!['\\', 't']
    } else {
        seq![c]
    }
}

/// How a text stands in a string of the language, without the quotes.
pub open spec fn string_chars(s: Seq<char>) -> Seq<char>
    decreases s.len(),
{
    if s.len() == 0 {
        Seq::empty()
    } else {
        string_chars(s.drop_last()) + string_char(s.last())
    }
}

/// How `s` stands in a string of the language, without the quotes.
pub fn escape_polydat_string(s: &str) -> (r: String)
    ensures
        r@ == string_chars(s@),
{
    let text: Vec<char> = chars::chars_of(s);
    let mut out: Vec<char> = Vec::new();
    let mut i: usize = 0;
    assert(text@.take(0) =~= Seq::<char>::empty());
    while i < text.len()
        invariant
            i <= text@.len(),
            out@ == string_chars(text@.take(i as int)),
        decreases text.len() - i,
    {
        let ghost before = out@;
        let c: char = text[i];
        assert(text@.take(i + 1).drop_last() =~= text@.take(i as int));
        assert(text@.take(i + 1).last() == c);
        if c == '\\' || c == '"' {
            out.push('\\');
            out.push(c);
        } else if c == '\n' {
            out.push('\\');
            out.push('n');
        } else if c == '\t' {
            out.push('\\');
            out.push('t');
        } else {
            out.push(c);
        }
        assert(out@ =~= before + string_char(c));
        i = i + 1;
    }
    assert(text@.take(i as int) =~= text@);
    chars::string_of(&out)
}

} // verus!
