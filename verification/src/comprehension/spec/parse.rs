//! Clauses and orders read from text.
//!
//! Clauses are separated by commas outside brackets; a piece without ` in `
//! belongs to the expression before it. `(a, b) in (e1, e2)` binds several
//! names side by side, `zip_truncate(..)` and `zip_cycle(..)` say what
//! happens to different lengths. An order is a name with an optional
//! number behind a slash.
use crate::chars;
use crate::comprehension::ast_legacy;
use crate::comprehension::ast_legacy::{
    Clause, ClauseSource, ClauseSourceV, ClauseV, ComprehensionMode, ModeV, OrderV, ShellOrigin,
    Subspace, TraversalOrder, ZipMode,
};
use crate::comprehension::ir::condition;
use vstd::prelude::*;

verus! {

/// Whether a piece starts a clause.
pub open spec fn starts_clause(p: Seq<char>) -> bool {
    condition::next_cut(p, " in "@, 0) is Some
}

/// The pieces joined to one text for each clause; none where the first
/// piece starts no clause.
pub open spec fn clause_runs(s: Seq<Seq<char>>) -> Option<Seq<Seq<char>>>
    decreases s.len(),
{
    if s.len() == 0 {
        Some(Seq::empty())
    } else {
        match clause_runs(s.drop_last()) {
            None => None,
            Some(front) => if starts_clause(s.last()) {
                Some(front.push(s.last()))
            } else if front.len() > 0 {
                Some(front.drop_last().push(front.last() + ","@ + s.last()))
            } else {
                None
            },
        }
    }
}

/// The trimmed texts of a run.
pub open spec fn trimmed(s: Seq<Seq<char>>) -> Seq<Seq<char>> {
    s.map_values(|t: Seq<char>| chars::trim(t))
}

/// What stands in round brackets after `head`, where a text does.
pub open spec fn inside_call(s: Seq<char>, head: Seq<char>) -> Option<Seq<char>> {
    if chars::begins(s, head + "("@) && s.len() > head.len() + 1 && s.last() == ')' {
        Some(s.subrange(head.len() as int + 1, s.len() - 1))
    } else {
        None
    }
}

/// The mode and the expressions of a clause with several names.
pub open spec fn parallel_exprs(s: Seq<char>) -> Option<(ZipMode, Seq<Seq<char>>)> {
    match inside_call(s, ""@) {
        Some(inner) => Some((ZipMode::Strict, condition::pieces(inner, ","@, 0))),
        None => match inside_call(s, "zip_truncate"@) {
            Some(inner) => Some((ZipMode::Truncate, condition::pieces(inner, ","@, 0))),
            None => match inside_call(s, "zip_cycle"@) {
                Some(inner) => Some((ZipMode::Cycle, condition::pieces(inner, ","@, 0))),
                None => None,
            },
        },
    }
}

/// The clause that a text stands for.
pub open spec fn clause_of(p: Seq<char>) -> Option<ClauseV> {
    match condition::next_cut(p, " in "@, 0) {
        None => None,
        Some(i) => {
            let lhs = chars::trim(p.subrange(0, i));
            let rhs = chars::trim(p.subrange(i + 4, p.len() as int));
            if lhs.len() == 0 || rhs.len() == 0 {
                None
            } else {
                match inside_call(lhs, ""@) {
                    Some(inner) => match parallel_exprs(rhs) {
                        Some((mode, exprs)) => {
                            let vars = trimmed(condition::comma_pieces(inner, 0));
                            if vars.len() == exprs.len() && vars.len() >= 2 {
                                Some(
                                    ClauseV { vars, source: ClauseSourceV::Parallel(mode, exprs) },
                                )
                            } else {
                                None
                            }
                        },
                        None => None,
                    },
                    None => Some(
                        ClauseV { vars: seq![lhs], source: ClauseSourceV::Single(rhs) },
                    ),
                }
            }
        },
    }
}

/// The clauses of a run of texts, where each is one.
pub open spec fn clauses_of_runs(s: Seq<Seq<char>>) -> Option<Seq<ClauseV>>
    decreases s.len(),
{
    if s.len() == 0 {
        Some(Seq::empty())
    } else {
        match (clauses_of_runs(s.drop_last()), clause_of(s.last())) {
            (Some(front), Some(c)) => Some(front.push(c)),
            _ => None,
        }
    }
}

/// The clauses of a text.
pub open spec fn clauses_of(text: Seq<char>) -> Option<Seq<ClauseV>> {
    match clause_runs(condition::pieces(text, ","@, 0)) {
        Some(runs) => clauses_of_runs(runs),
        None => None,
    }
}

// ---------------------------------------------------------------------
// Reading clauses
// ---------------------------------------------------------------------

fn comma() -> (r: Vec<char>)
    ensures
        r@ == ","@,
        r@.len() == 1,
        condition::level_step(r@[0]) == 0,
{
    proof {
        reveal_strlit(",");
    }
    chars::chars_of(",")
}

/// The trimmed pieces of `s` between commas outside brackets.
fn top_pieces(s: &Vec<char>) -> (r: Vec<Vec<char>>)
    ensures
        condition::runs_of(r@) == condition::pieces(s@, ","@, 0),
{
    match condition::split_top_level(s, &comma()) {
        Some(parts) => parts,
        None => {
            let only: Vec<char> = chars::trim_chars(s);
            let ghost t = only@;
            let r: Vec<Vec<char>> = vec![only];
            proof {
                assert(s@.subrange(0, s@.len() as int) =~= s@);
                assert(condition::pieces(s@, ","@, 0) =~= seq![t]);
                assert(condition::runs_of(r@) =~= seq![t]);
            }
            r
        },
    }
}

/// The first place where ` in ` stands in `p`, outside brackets.
fn find_in(p: &Vec<char>) -> (r: Option<usize>)
    ensures
        match r {
            Some(i) => condition::next_cut(p@, " in "@, 0) == Some(i as int) && i + 4 <= p@.len(),
            None => condition::next_cut(p@, " in "@, 0) is None,
        },
{
    let mark: Vec<char> = chars::chars_of(" in ");
    proof {
        reveal_strlit(" in ");
    }
    let mut depth: i128 = 0;
    let mut i: usize = 0;
    while i < p.len()
        invariant
            i <= p@.len(),
            mark@ == " in "@,
            mark@.len() == 4,
            -(i as int) <= depth <= i,
            depth == condition::level(p@, i as int),
            condition::next_cut(p@, " in "@, 0) == condition::next_cut(p@, " in "@, i as int),
        decreases p.len() - i,
    {
        depth = depth + condition::bracket_step(p[i]);
        assert(depth == condition::level(p@, i + 1));
        if depth == 0 && chars::has_at(p, i, &mark) {
            assert(condition::cut_at(p@, " in "@, i as int));
            return Some(i);
        }
        assert(!condition::cut_at(p@, " in "@, i as int));
        i = i + 1;
    }
    None
}

proof fn lemma_runs_prefix(s: Seq<Seq<char>>, k: int)
    requires
        0 <= k <= s.len(),
        clause_runs(s.take(k)) is None,
    ensures
        clause_runs(s) is None,
    decreases s.len(),
{
    if k == s.len() {
        assert(s.take(k) =~= s);
    } else {
        assert(s.drop_last().take(k) =~= s.take(k));
        lemma_runs_prefix(s.drop_last(), k);
    }
}

/// The pieces joined to one text for each clause.
fn join_runs(parts: Vec<Vec<char>>) -> (r: Option<Vec<Vec<char>>>)
    ensures
        match (r, clause_runs(condition::runs_of(parts@))) {
            (Some(v), Some(want)) => condition::runs_of(v@) == want,
            (None, None) => true,
            _ => false,
        },
{
    let ghost all = condition::runs_of(parts@);
    let mut out: Vec<Vec<char>> = Vec::new();
    let mut i: usize = 0;
    assert(all.take(0) =~= Seq::<Seq<char>>::empty());
    assert(condition::runs_of(out@) =~= Seq::<Seq<char>>::empty());
    while i < parts.len()
        invariant
            i <= parts@.len(),
            all == condition::runs_of(parts@),
            clause_runs(all.take(i as int)) == Some(condition::runs_of(out@)),
        decreases parts.len() - i,
    {
        let ghost before = out@;
        proof {
            assert(all.take(i + 1).drop_last() =~= all.take(i as int));
            assert(all.take(i + 1).last() == parts@[i as int]@);
        }
        let piece: Vec<char> = chars::slice_chars(&parts[i], 0, parts[i].len());
        assert(piece@ =~= parts@[i as int]@);
        if find_in(&piece).is_some() {
            let ghost pv = piece@;
            out.push(piece);
            assert(condition::runs_of(out@) =~= condition::runs_of(before).push(pv));
        } else if out.len() > 0 {
            let ghost last = before.last()@;
            let mut joined: Vec<char> = out.pop().unwrap();
            chars::extend_chars(&mut joined, ",");
            let text: String = chars::string_of(&piece);
            chars::extend_chars(&mut joined, text.as_str());
            let ghost jv = joined@;
            out.push(joined);
            proof {
                assert(jv == last + ","@ + piece@);
                assert(condition::runs_of(before).last() == last);
                assert(condition::runs_of(out@) =~= condition::runs_of(before).drop_last().push(
                    jv,
                ));
            }
        } else {
            proof {
                assert(condition::runs_of(out@).len() == 0);
                lemma_runs_prefix(all, i + 1);
            }
            return None;
        }
        i = i + 1;
    }
    assert(all.take(i as int) =~= all);
    Some(out)
}

/// What stands in round brackets after `head`.
fn call_inside(s: &Vec<char>, head: &str) -> (r: Option<Vec<char>>)
    ensures
        match (r, inside_call(s@, head@)) {
            (Some(v), Some(want)) => v@ == want,
            (None, None) => true,
            _ => false,
        },
{
    let mut open: Vec<char> = chars::chars_of(head);
    chars::extend_chars(&mut open, "(");
    proof {
        reveal_strlit("(");
    }
    if chars::has_at(s, 0, &open) && s.len() > open.len() && s[s.len() - 1] == ')' {
        Some(chars::slice_chars(s, open.len(), s.len() - 1))
    } else {
        None
    }
}

/// The texts of a run of characters, as strings.
fn strings_of(v: &Vec<Vec<char>>) -> (r: Vec<String>)
    ensures
        chars::texts(r@) == condition::runs_of(v@),
{
    let mut out: Vec<String> = Vec::new();
    let mut i: usize = 0;
    while i < v.len()
        invariant
            i <= v@.len(),
            out@.len() == i,
            forall|k: int| 0 <= k < i ==> (#[trigger] out@[k])@ == v@[k]@,
        decreases v.len() - i,
    {
        out.push(chars::string_of(&v[i]));
        i = i + 1;
    }
    assert(chars::texts(out@) =~= condition::runs_of(v@));
    out
}

/// The trimmed texts of a run of characters, as strings.
fn trimmed_strings(v: &Vec<Vec<char>>) -> (r: Vec<String>)
    ensures
        chars::texts(r@) == trimmed(condition::runs_of(v@)),
{
    let mut out: Vec<String> = Vec::new();
    let mut i: usize = 0;
    while i < v.len()
        invariant
            i <= v@.len(),
            out@.len() == i,
            forall|k: int| 0 <= k < i ==> (#[trigger] out@[k])@ == chars::trim(v@[k]@),
        decreases v.len() - i,
    {
        out.push(chars::string_of(&chars::trim_chars(&v[i])));
        i = i + 1;
    }
    assert(chars::texts(out@) =~= trimmed(condition::runs_of(v@)));
    out
}

/// The mode and the expressions of a clause with several names.
fn parse_parallel(s: &Vec<char>) -> (r: Option<(ZipMode, Vec<String>)>)
    ensures
        match (r, parallel_exprs(s@)) {
            (Some(p), Some(want)) => p.0 == want.0 && chars::texts(p.1@) == want.1,
            (None, None) => true,
            _ => false,
        },
{
    if let Some(inner) = call_inside(s, "") {
        return Some((ZipMode::Strict, strings_of(&top_pieces(&inner))));
    }
    if let Some(inner) = call_inside(s, "zip_truncate") {
        return Some((ZipMode::Truncate, strings_of(&top_pieces(&inner))));
    }
    if let Some(inner) = call_inside(s, "zip_cycle") {
        return Some((ZipMode::Cycle, strings_of(&top_pieces(&inner))));
    }
    None
}

/// The clause that `p` stands for.
fn parse_clause(p: &Vec<char>) -> (r: Option<Clause>)
    ensures
        match (r, clause_of(p@)) {
            (Some(c), Some(want)) => c@ == want,
            (None, None) => true,
            _ => false,
        },
        r matches Some(c) ==> ast_legacy::writable(c@),
{
    let i: usize = match find_in(p) {
        Some(i) => i,
        None => return None,
    };
    let end: usize = p.len();
    let lhs: Vec<char> = chars::trim_chars(&chars::slice_chars(p, 0, i));
    let rhs: Vec<char> = chars::trim_chars(&chars::slice_chars(p, i + 4, end));
    if lhs.len() == 0 || rhs.len() == 0 {
        return None;
    }
    match call_inside(&lhs, "") {
        Some(inner) => {
            match parse_parallel(&rhs) {
                Some((mode, exprs)) => {
                    let vars: Vec<String> = trimmed_strings(&condition::split_commas(&inner));
                    proof {
                        assert(chars::texts(vars@).len() == vars@.len());
                        assert(chars::texts(exprs@).len() == exprs@.len());
                    }
                    if vars.len() == exprs.len() && vars.len() >= 2 {
                        Some(Clause { vars, source: ClauseSource::Parallel { mode, exprs } })
                    } else {
                        None
                    }
                },
                None => None,
            }
        },
        None => {
            let var: String = chars::string_of(&lhs);
            let expr: String = chars::string_of(&rhs);
            Some(Clause::new(var.as_str(), expr.as_str()))
        },
    }
}

proof fn lemma_clauses_prefix(s: Seq<Seq<char>>, k: int)
    requires
        0 <= k <= s.len(),
        clauses_of_runs(s.take(k)) is None,
    ensures
        clauses_of_runs(s) is None,
    decreases s.len(),
{
    if k == s.len() {
        assert(s.take(k) =~= s);
    } else {
        assert(s.drop_last().take(k) =~= s.take(k));
        lemma_clauses_prefix(s.drop_last(), k);
    }
}

/// The clauses of `text`.
pub fn parse_clauses(text: &str) -> (r: Option<Vec<Clause>>)
    ensures
        match (r, clauses_of(text@)) {
            (Some(v), Some(want)) => ast_legacy::clause_views(v@) == want,
            (None, None) => true,
            _ => false,
        },
        r matches Some(v) ==> ast_legacy::all_writable(ast_legacy::clause_views(v@)),
{
    let runs: Vec<Vec<char>> = match join_runs(top_pieces(&chars::chars_of(text))) {
        Some(v) => v,
        None => return None,
    };
    let ghost all = condition::runs_of(runs@);
    let mut out: Vec<Clause> = Vec::new();
    let mut i: usize = 0;
    assert(all.take(0) =~= Seq::<Seq<char>>::empty());
    assert(ast_legacy::clause_views(out@) =~= Seq::<ClauseV>::empty());
    while i < runs.len()
        invariant
            i <= runs@.len(),
            all == condition::runs_of(runs@),
            clause_runs(condition::pieces(text@, ","@, 0)) == Some(all),
            clauses_of_runs(all.take(i as int)) == Some(ast_legacy::clause_views(out@)),
            ast_legacy::all_writable(ast_legacy::clause_views(out@)),
        decreases runs.len() - i,
    {
        proof {
            assert(all.take(i + 1).drop_last() =~= all.take(i as int));
            assert(all.take(i + 1).last() == runs@[i as int]@);
        }
        match parse_clause(&runs[i]) {
            Some(c) => {
                let ghost before = out@;
                let ghost cv = c@;
                out.push(c);
                assert(ast_legacy::clause_views(out@) =~= ast_legacy::clause_views(before).push(
                    cv,
                ));
            },
            None => {
                proof {
                    lemma_clauses_prefix(all, i + 1);
                }
                return None;
            },
        }
        i = i + 1;
    }
    assert(all.take(i as int) =~= all);
    Some(out)
}

// ---------------------------------------------------------------------
// Sub-spaces by repeated names
// ---------------------------------------------------------------------

/// Whether a clause binds a name that one of a run binds.
pub open spec fn shares_name(s: Seq<ClauseV>, c: ClauseV) -> bool {
    exists|i: int|
        0 <= i < c.vars.len() && ast_legacy::names_of(s).contains(#[trigger] c.vars[i])
}

/// The clauses in sub-spaces: a name that stood in the sub-space before
/// starts the next one.
pub open spec fn by_repeats(s: Seq<ClauseV>) -> Seq<Seq<ClauseV>>
    decreases s.len(),
{
    if s.len() == 0 {
        Seq::empty()
    } else {
        let front = by_repeats(s.drop_last());
        if front.len() > 0 && !shares_name(front.last(), s.last()) {
            front.drop_last().push(front.last().push(s.last()))
        } else {
            front.push(seq![s.last()])
        }
    }
}

/// How clauses combine: to every combination where no name repeats, in
/// sub-spaces otherwise.
pub open spec fn mode_of(s: Seq<ClauseV>) -> ModeV {
    if by_repeats(s).len() <= 1 {
        ModeV::Cartesian(s)
    } else {
        ModeV::Union(by_repeats(s))
    }
}

/// Whether `c` binds a name that one of `clauses` binds.
fn binds_again(clauses: &Vec<Clause>, c: &Clause) -> (r: bool)
    ensures
        r == shares_name(ast_legacy::clause_views(clauses@), c@),
{
    let ghost all = ast_legacy::clause_views(clauses@);
    let ghost names = ast_legacy::names_of(all);
    let mut i: usize = 0;
    while i < c.vars.len()
        invariant
            i <= c.vars@.len(),
            all == ast_legacy::clause_views(clauses@),
            names == ast_legacy::names_of(all),
            forall|k: int| 0 <= k < i ==> !names.contains(#[trigger] c@.vars[k]),
        decreases c.vars.len() - i,
    {
        assert(c@.vars[i as int] == c.vars@[i as int]@);
        if bound_by(clauses, c.vars[i].as_str()) {
            return true;
        }
        i = i + 1;
    }
    false
}

/// Whether one of `clauses` binds `name`.
fn bound_by(clauses: &Vec<Clause>, name: &str) -> (r: bool)
    ensures
        r == ast_legacy::names_of(ast_legacy::clause_views(clauses@)).contains(name@),
{
    let ghost all = ast_legacy::clause_views(clauses@);
    let mut i: usize = 0;
    assert(all.take(0) =~= Seq::<ClauseV>::empty());
    while i < clauses.len()
        invariant
            i <= clauses@.len(),
            all == ast_legacy::clause_views(clauses@),
            !ast_legacy::names_of(all.take(i as int)).contains(name@),
        decreases clauses.len() - i,
    {
        proof {
            assert(all.take(i + 1).drop_last() =~= all.take(i as int));
            assert(all.take(i + 1).last() == clauses@[i as int]@);
        }
        let ghost front = ast_legacy::names_of(all.take(i as int));
        let ghost own = clauses@[i as int]@.vars;
        let mut j: usize = 0;
        while j < clauses[i].vars.len()
            invariant
                i < clauses@.len(),
                j <= clauses@[i as int].vars@.len(),
                all == ast_legacy::clause_views(clauses@),
                own == clauses@[i as int]@.vars,
                front == ast_legacy::names_of(all.take(i as int)),
                ast_legacy::names_of(all.take(i + 1)) == front + own,
                forall|k: int| 0 <= k < j ==> #[trigger] own[k] != name@,
            decreases clauses@[i as int].vars@.len() - j,
        {
            assert(own[j as int] == clauses@[i as int].vars@[j as int]@);
            if *clauses[i].vars[j].as_str() == *name {
                proof {
                    assert((front + own)[front.len() + j] == name@);
                    lemma_names_prefix(all, i + 1, name@);
                }
                return true;
            }
            j = j + 1;
        }
        proof {
            assert forall|k: int| 0 <= k < (front + own).len() implies (front + own)[k]
                != name@ by {
                if k < front.len() {
                    assert(front[k] != name@) by {
                        if front[k] == name@ {
                            assert(front.contains(name@));
                        }
                    }
                } else {
                    assert((front + own)[k] == own[k - front.len()]);
                }
            }
        }
        i = i + 1;
    }
    assert(all.take(i as int) =~= all);
    false
}

proof fn lemma_names_prefix(s: Seq<ClauseV>, k: int, name: Seq<char>)
    requires
        0 <= k <= s.len(),
        ast_legacy::names_of(s.take(k)).contains(name),
    ensures
        ast_legacy::names_of(s).contains(name),
    decreases s.len(),
{
    if k == s.len() {
        assert(s.take(k) =~= s);
    } else {
        assert(s.drop_last().take(k) =~= s.take(k));
        lemma_names_prefix(s.drop_last(), k, name);
        let front = ast_legacy::names_of(s.drop_last());
        let i = choose|i: int| 0 <= i < front.len() && front[i] == name;
        assert(ast_legacy::names_of(s)[i] == name);
    }
}

proof fn lemma_repeats_flat(s: Seq<ClauseV>)
    ensures
        ast_legacy::flat_subspaces(by_repeats(s)) == s,
        s.len() > 0 ==> by_repeats(s).len() > 0,
    decreases s.len(),
{
    if s.len() > 0 {
        lemma_repeats_flat(s.drop_last());
        let front = by_repeats(s.drop_last());
        if front.len() > 0 && !shares_name(front.last(), s.last()) {
            let all = front.drop_last().push(front.last().push(s.last()));
            assert(all.drop_last() =~= front.drop_last());
            assert(ast_legacy::flat_subspaces(front) == ast_legacy::flat_subspaces(
                front.drop_last(),
            ) + front.last());
            assert(ast_legacy::flat_subspaces(all) == ast_legacy::flat_subspaces(
                front.drop_last(),
            ) + front.last().push(s.last()));
            assert(ast_legacy::flat_subspaces(all) =~= s.drop_last().push(s.last()));
            assert(ast_legacy::flat_subspaces(all) =~= s);
        } else {
            let all = front.push(seq![s.last()]);
            assert(all.drop_last() =~= front);
            assert(ast_legacy::flat_subspaces(all) == s.drop_last() + seq![s.last()]);
            assert(ast_legacy::flat_subspaces(all) =~= s);
        }
    }
}

/// How `clauses` combine.
pub fn combine(clauses: Vec<Clause>) -> (r: ComprehensionMode)
    requires
        ast_legacy::all_writable(ast_legacy::clause_views(clauses@)),
    ensures
        r@ == mode_of(ast_legacy::clause_views(clauses@)),
        ast_legacy::flat(r@) == ast_legacy::clause_views(clauses@),
{
    let ghost all = ast_legacy::clause_views(clauses@);
    proof {
        lemma_repeats_flat(all);
    }
    let ghost whole = clauses@;
    let mut rest: Vec<Clause> = clauses;
    let mut backward: Vec<Clause> = Vec::new();
    while rest.len() > 0
        invariant
            rest@.len() + backward@.len() == whole.len(),
            rest@ == whole.take(rest@.len() as int),
            forall|k: int|
                0 <= k < backward@.len() ==> #[trigger] backward@[k] == whole[whole.len() - 1 - k],
        decreases rest.len(),
    {
        let ghost n = rest@.len();
        let c: Clause = rest.pop().unwrap();
        assert(rest@ =~= whole.take(rest@.len() as int));
        backward.push(c);
    }
    let mut spaces: Vec<Subspace> = Vec::new();
    let ghost mut done = 0int;
    assert(all.take(0) =~= Seq::<ClauseV>::empty());
    assert(ast_legacy::subspace_views(spaces@) =~= Seq::<Seq<ClauseV>>::empty());
    while backward.len() > 0
        invariant
            done + backward@.len() == whole.len(),
            0 <= done,
            all == ast_legacy::clause_views(whole),
            forall|k: int|
                0 <= k < backward@.len() ==> #[trigger] backward@[k] == whole[whole.len() - 1 - k],
            ast_legacy::subspace_views(spaces@) == by_repeats(all.take(done)),
        decreases backward.len(),
    {
        let ghost n = backward@.len();
        assert(backward@[n - 1] == whole[done]);
        let c: Clause = backward.pop().unwrap();
        let ghost cv = c@;
        let ghost before = spaces@;
        proof {
            assert(all.take(done + 1).drop_last() =~= all.take(done));
            assert(all.take(done + 1).last() == cv);
        }
        let joins: bool = spaces.len() > 0 && !binds_again(&spaces[spaces.len() - 1].clauses, &c);
        if joins {
            let ghost last = before.last()@;
            let space: Subspace = spaces.pop().unwrap();
            let mut own: Vec<Clause> = space.clauses;
            let ghost had = own@;
            own.push(c);
            assert(ast_legacy::clause_views(own@) =~= last.push(cv));
            spaces.push(Subspace { clauses: own });
            proof {
                assert(ast_legacy::subspace_views(before).last() == last);
                assert(ast_legacy::subspace_views(spaces@) =~= ast_legacy::subspace_views(
                    before,
                ).drop_last().push(last.push(cv)));
            }
        } else {
            let own: Vec<Clause> = vec![c];
            assert(ast_legacy::clause_views(own@) =~= seq![cv]);
            spaces.push(Subspace { clauses: own });
            proof {
                assert(ast_legacy::subspace_views(spaces@) =~= ast_legacy::subspace_views(
                    before,
                ).push(seq![cv]));
                if before.len() > 0 {
                    assert(ast_legacy::subspace_views(before).last() == before.last()@);
                }
            }
        }
        proof {
            done = done + 1;
        }
    }
    proof {
        assert(all.take(done) =~= all);
        assert(ast_legacy::subspace_views(spaces@).len() == spaces@.len());
    }
    if spaces.len() == 0 {
        let none: Vec<Clause> = Vec::new();
        assert(ast_legacy::clause_views(none@) =~= all);
        ComprehensionMode::Cartesian(none)
    } else if spaces.len() == 1 {
        let ghost only = spaces@[0]@;
        let space: Subspace = spaces.pop().unwrap();
        proof {
            let one = by_repeats(all);
            assert(one =~= seq![only]);
            assert(one.drop_last() =~= Seq::<Seq<ClauseV>>::empty());
            assert(ast_legacy::flat_subspaces(one.drop_last()) =~= Seq::<ClauseV>::empty());
            assert(ast_legacy::flat_subspaces(one) == Seq::<ClauseV>::empty() + only);
            assert(ast_legacy::flat_subspaces(one) =~= only);
        }
        ComprehensionMode::Cartesian(space.clauses)
    } else {
        ComprehensionMode::Union(spaces)
    }
}

// ---------------------------------------------------------------------
// Orders
// ---------------------------------------------------------------------

/// The first slash at or after `from`; the end where there is none.
pub open spec fn next_slash(s: Seq<char>, from: int) -> int
    decreases s.len() - from,
{
    if from < 0 || from >= s.len() {
        s.len() as int
    } else if s[from] == '/' {
        from
    } else {
        next_slash(s, from + 1)
    }
}

/// What stands before the first slash.
pub open spec fn before_slash(s: Seq<char>) -> Seq<char> {
    s.take(next_slash(s, 0))
}

/// What stands after the first slash, where there is one.
pub open spec fn after_slash(s: Seq<char>) -> Option<Seq<char>> {
    if next_slash(s, 0) < s.len() {
        Some(s.skip(next_slash(s, 0) + 1))
    } else {
        None
    }
}

/// The number that a text writes, where it fits.
pub open spec fn count_of_text(s: Seq<char>) -> Option<usize> {
    match chars::read_u64(s) {
        Some(n) => if n <= usize::MAX {
            Some(n as usize)
        } else {
            None
        },
        None => None,
    }
}

/// The optional number of an order; none where the text is no number.
pub open spec fn count_of(tail: Option<Seq<char>>) -> Option<Option<usize>> {
    match tail {
        None => Some(None),
        Some(t) => match count_of_text(t) {
            Some(n) => Some(Some(n)),
            None => None,
        },
    }
}

/// The origin and the depth of shells.
pub open spec fn shells_of(tail: Option<Seq<char>>) -> Option<OrderV> {
    match tail {
        None => Some(OrderV::Shells(ShellOrigin::Outer, None)),
        Some(t) => if before_slash(t) == "center"@ {
            match count_of(after_slash(t)) {
                Some(n) => Some(OrderV::Shells(ShellOrigin::Center, n)),
                None => None,
            }
        } else if before_slash(t) == "corner"@ {
            match count_of(after_slash(t)) {
                Some(n) => Some(OrderV::Shells(ShellOrigin::Corner, n)),
                None => None,
            }
        } else {
            match count_of(tail) {
                Some(n) => Some(OrderV::Shells(ShellOrigin::Outer, n)),
                None => None,
            }
        },
    }
}

/// The place where ` seed=` stands.
pub open spec fn seed_at(s: Seq<char>, from: int) -> Option<int>
    decreases s.len() - from,
{
    if from < 0 || from >= s.len() {
        None
    } else if chars::stands_at(s, from, " seed="@) {
        Some(from)
    } else {
        seed_at(s, from + 1)
    }
}

/// The order by its name and what stands after the slash.
pub open spec fn plain_order(name: Seq<char>, tail: Option<Seq<char>>) -> Option<OrderV> {
    if name == "shells"@ {
        shells_of(tail)
    } else {
        match count_of(tail) {
            None => None,
            Some(n) => if name == "lex"@ {
                Some(OrderV::Lex(n))
            } else if name == "reverse_lex"@ {
                Some(OrderV::ReverseLex(n))
            } else if name == "diagonal"@ {
                Some(OrderV::Diagonal(n))
            } else if name == "antidiagonal"@ {
                Some(OrderV::Antidiagonal(n))
            } else if name == "extrema"@ {
                Some(OrderV::Extrema(n))
            } else if name == "halton"@ {
                Some(OrderV::Halton(n))
            } else if name == "sobol"@ {
                Some(OrderV::Sobol(n))
            } else if name == "lhs"@ {
                Some(OrderV::Lhs(n, None))
            } else {
                None
            },
        }
    }
}

/// The order that a text stands for.
pub open spec fn order_of(text: Seq<char>) -> Option<OrderV> {
    let t = chars::trim(text);
    match inside_call(t, "custom"@) {
        Some(f) => Some(OrderV::Custom(f)),
        None => match seed_at(t, 0) {
            Some(p) => match plain_order(before_slash(t.take(p)), after_slash(t.take(p))) {
                Some(OrderV::Lhs(n, _)) => match chars::read_u64(t.skip(p + 6)) {
                    Some(k) => Some(OrderV::Lhs(n, Some(k))),
                    None => None,
                },
                _ => None,
            },
            None => plain_order(before_slash(t), after_slash(t)),
        },
    }
}

/// What stands before and after the first slash of `s`.
fn split_slash(s: &Vec<char>) -> (r: (Vec<char>, Option<Vec<char>>))
    ensures
        r.0@ == before_slash(s@),
        match (r.1, after_slash(s@)) {
            (Some(t), Some(want)) => t@ == want,
            (None, None) => true,
            _ => false,
        },
{
    let mut i: usize = 0;
    while i < s.len() && s[i] != '/'
        invariant
            i <= s@.len(),
            next_slash(s@, 0) == next_slash(s@, i as int),
        decreases s.len() - i,
    {
        i = i + 1;
    }
    let head: Vec<char> = chars::slice_chars(s, 0, i);
    assert(head@ =~= s@.take(i as int));
    if i < s.len() {
        let tail: Vec<char> = chars::slice_chars(s, i + 1, s.len());
        assert(tail@ =~= s@.skip(i + 1));
        (head, Some(tail))
    } else {
        (head, None)
    }
}

spec fn opt_chars(v: Option<Vec<char>>) -> Option<Seq<char>> {
    match v {
        Some(t) => Some(t@),
        None => None,
    }
}

fn read_count(tail: &Option<Vec<char>>) -> (r: Option<Option<usize>>)
    ensures
        r == count_of(opt_chars(*tail)),
{
    match tail {
        None => Some(None),
        Some(t) => match chars::u64_of_chars(t) {
            Some(n) => if n <= usize::MAX as u64 {
                Some(Some(n as usize))
            } else {
                None
            },
            None => None,
        },
    }
}

fn is_text(s: &Vec<char>, word: &str) -> (r: bool)
    ensures
        r == (s@ == word@),
{
    chars::same_chars(s, &chars::chars_of(word))
}

spec fn opt_order(o: Option<TraversalOrder>) -> Option<OrderV> {
    match o {
        Some(t) => Some(t@),
        None => None,
    }
}

fn read_shells(tail: &Option<Vec<char>>) -> (r: Option<TraversalOrder>)
    ensures
        opt_order(r) == shells_of(opt_chars(*tail)),
{
    match tail {
        None => Some(TraversalOrder::Shells { origin: ShellOrigin::Outer, depth: None }),
        Some(t) => {
            let (head, rest) = split_slash(t);
            if is_text(&head, "center") {
                match read_count(&rest) {
                    Some(depth) => Some(
                        TraversalOrder::Shells { origin: ShellOrigin::Center, depth },
                    ),
                    None => None,
                }
            } else if is_text(&head, "corner") {
                match read_count(&rest) {
                    Some(depth) => Some(
                        TraversalOrder::Shells { origin: ShellOrigin::Corner, depth },
                    ),
                    None => None,
                }
            } else {
                match read_count(tail) {
                    Some(depth) => Some(
                        TraversalOrder::Shells { origin: ShellOrigin::Outer, depth },
                    ),
                    None => None,
                }
            }
        },
    }
}

fn read_plain(name: &Vec<char>, tail: &Option<Vec<char>>) -> (r: Option<TraversalOrder>)
    ensures
        opt_order(r) == plain_order(name@, opt_chars(*tail)),
{
    if is_text(name, "shells") {
        return read_shells(tail);
    }
    let count: Option<usize> = match read_count(tail) {
        Some(n) => n,
        None => return None,
    };
    if is_text(name, "lex") {
        Some(TraversalOrder::Lex { count })
    } else if is_text(name, "reverse_lex") {
        Some(TraversalOrder::ReverseLex { count })
    } else if is_text(name, "diagonal") {
        Some(TraversalOrder::Diagonal { count })
    } else if is_text(name, "antidiagonal") {
        Some(TraversalOrder::Antidiagonal { count })
    } else if is_text(name, "extrema") {
        Some(TraversalOrder::Extrema { strata: count })
    } else if is_text(name, "halton") {
        Some(TraversalOrder::Halton { count })
    } else if is_text(name, "sobol") {
        Some(TraversalOrder::Sobol { count })
    } else if is_text(name, "lhs") {
        Some(TraversalOrder::Lhs { count, seed: None })
    } else {
        None
    }
}

/// The order that `text` stands for.
pub fn parse_order_spec(text: &str) -> (r: Option<TraversalOrder>)
    ensures
        match (r, order_of(text@)) {
            (Some(o), Some(want)) => o@ == want,
            (None, None) => true,
            _ => false,
        },
{
    let t: Vec<char> = chars::trim_chars(&chars::chars_of(text));
    if let Some(f) = call_inside(&t, "custom") {
        return Some(TraversalOrder::Custom { function: chars::string_of(&f) });
    }
    let mark: Vec<char> = chars::chars_of(" seed=");
    proof {
        reveal_strlit(" seed=");
    }
    let mut p: usize = 0;
    while p < t.len()
        invariant
            p <= t@.len(),
            t@ == chars::trim(text@),
            inside_call(t@, "custom"@) is None,
            mark@ == " seed="@,
            mark@.len() == 6,
            seed_at(t@, 0) == seed_at(t@, p as int),
        decreases t.len() - p,
    {
        if chars::has_at(&t, p, &mark) {
            let front: Vec<char> = chars::slice_chars(&t, 0, p);
            let back: Vec<char> = chars::slice_chars(&t, p + 6, t.len());
            assert(front@ =~= t@.take(p as int));
            assert(back@ =~= t@.skip(p + 6));
            let (head, rest) = split_slash(&front);
            return match read_plain(&head, &rest) {
                Some(TraversalOrder::Lhs { count, .. }) => match chars::u64_of_chars(&back) {
                    Some(k) => Some(TraversalOrder::Lhs { count, seed: Some(k) }),
                    None => None,
                },
                _ => None,
            };
        }
        p = p + 1;
    }
    let (head, rest) = split_slash(&t);
    read_plain(&head, &rest)
}

} // verus!
