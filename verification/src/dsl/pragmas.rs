//! Pragmas: what a module opts into at its head.
//!
//! Each scope has its own set of pragmas and sees those of the scopes
//! around it. Where an inner scope disagrees with an outer one, the outer
//! one stands and the disagreement is reported. A name that is not
//! recognised is kept and reported, not refused.
use crate::chars;
use crate::dsl::ast;
use crate::dsl::ast::{PolydatFile, Statement, StatementV};
use std::sync::Arc;
use vstd::prelude::*;

verus! {

/// One pragma.
#[derive(Debug, PartialEq, Eq)]
pub struct Pragma {
    /// The bare name.
    pub name: String,
    /// What follows the name.
    pub args: Vec<String>,
    /// The line it stands on, from one.
    pub line: usize,
}

/// The pragmas of a scope.
#[derive(Debug)]
pub struct PragmaSet {
    pub entries: Vec<Pragma>,
    /// The scope around this one.
    pub parent: Option<Arc<PragmaSet>>,
}

/// A pragma on which two scopes disagree.
#[derive(Debug, PartialEq, Eq)]
pub struct PragmaConflict {
    pub name: String,
    pub outer_line: usize,
    pub inner_line: usize,
}

/// The content of a pragma.
#[verifier::ext_equal]
pub struct PragmaV {
    pub name: Seq<char>,
    pub args: Seq<Seq<char>>,
    pub line: usize,
}

/// The content of a disagreement.
#[verifier::ext_equal]
pub struct ConflictV {
    pub name: Seq<char>,
    pub outer_line: usize,
    pub inner_line: usize,
}

impl View for Pragma {
    type V = PragmaV;

    open spec fn view(&self) -> PragmaV {
        PragmaV { name: self.name@, args: chars::texts(self.args@), line: self.line }
    }
}

impl View for PragmaConflict {
    type V = ConflictV;

    open spec fn view(&self) -> ConflictV {
        ConflictV {
            name: self.name@,
            outer_line: self.outer_line,
            inner_line: self.inner_line,
        }
    }
}

/// The contents of a run of pragmas.
pub open spec fn pragma_views(s: Seq<Pragma>) -> Seq<PragmaV> {
    Seq::new(s.len(), |i: int| s[i]@)
}

/// The contents of a run of disagreements.
pub open spec fn conflict_views(s: Seq<PragmaConflict>) -> Seq<ConflictV> {
    Seq::new(s.len(), |i: int| s[i]@)
}

/// The scopes that a set sees, its own first, each by its pragmas.
pub open spec fn scopes(set: PragmaSet) -> Seq<Seq<PragmaV>>
    decreases set,
{
    match set.parent {
        Some(p) => seq![pragma_views(set.entries@)] + scopes(*p),
        None => seq![pragma_views(set.entries@)],
    }
}

impl View for PragmaSet {
    type V = Seq<Seq<PragmaV>>;

    open spec fn view(&self) -> Seq<Seq<PragmaV>> {
        scopes(*self)
    }
}

/// Whether a name is among a run of pragmas.
pub open spec fn named(s: Seq<PragmaV>, name: Seq<char>) -> bool {
    exists|i: int| 0 <= i < s.len() && (#[trigger] s[i]).name == name
}

/// Whether a pragma is in one of the scopes.
pub open spec fn in_force(chain: Seq<Seq<PragmaV>>, name: Seq<char>) -> bool {
    exists|k: int| 0 <= k < chain.len() && named(#[trigger] chain[k], name)
}

/// Whether types are asserted on wires.
pub open spec fn types_strict(chain: Seq<Seq<PragmaV>>) -> bool {
    in_force(chain, "strict_types"@) || in_force(chain, "strict"@)
}

/// Whether values are asserted on wires.
pub open spec fn values_strict(chain: Seq<Seq<PragmaV>>) -> bool {
    in_force(chain, "strict_values"@) || in_force(chain, "strict"@)
}

/// Whether a name is recognised.
pub open spec fn recognised(name: Seq<char>) -> bool {
    name == "strict_types"@ || name == "strict_values"@ || name == "strict"@
}

/// Whether `name` is recognised.
pub fn is_known(name: &str) -> (r: bool)
    ensures
        r == recognised(name@),
{
    *name == *"strict_types" || *name == *"strict_values" || *name == *"strict"
}

/// The first pragma of a name in a run.
pub open spec fn first_named(s: Seq<PragmaV>, name: Seq<char>) -> Option<PragmaV>
    decreases s.len(),
{
    if s.len() == 0 {
        None
    } else if s[0].name == name {
        Some(s[0])
    } else {
        first_named(s.drop_first(), name)
    }
}

/// The disagreement of a pragma with the scopes around it, the nearest
/// first: the first pragma of its name in a scope, with other arguments.
pub open spec fn disagreement(entry: PragmaV, chain: Seq<Seq<PragmaV>>) -> Option<ConflictV>
    decreases chain.len(),
{
    if chain.len() == 0 {
        None
    } else {
        match first_named(chain[0], entry.name) {
            Some(p) => if p.args != entry.args {
                Some(
                    ConflictV { name: entry.name, outer_line: p.line, inner_line: entry.line },
                )
            } else {
                disagreement(entry, chain.drop_first())
            },
            None => disagreement(entry, chain.drop_first()),
        }
    }
}

/// The disagreements of a run of pragmas with the scopes around it.
pub open spec fn disagreements(entries: Seq<PragmaV>, chain: Seq<Seq<PragmaV>>) -> Seq<ConflictV>
    decreases entries.len(),
{
    if entries.len() == 0 {
        Seq::empty()
    } else {
        let front = disagreements(entries.drop_last(), chain);
        match disagreement(entries.last(), chain) {
            Some(c) => front.push(c),
            None => front,
        }
    }
}

/// The place of the first of `entries` with the name `name`.
fn find(entries: &Vec<Pragma>, name: &str) -> (r: Option<usize>)
    ensures
        match r {
            Some(i) => i < entries@.len() && first_named(pragma_views(entries@), name@) == Some(
                entries@[i as int]@,
            ),
            None => first_named(pragma_views(entries@), name@) is None,
        },
        r is Some == named(pragma_views(entries@), name@),
{
    let ghost all = pragma_views(entries@);
    let mut i: usize = 0;
    assert(all.skip(0) =~= all);
    while i < entries.len()
        invariant
            i <= entries@.len(),
            all == pragma_views(entries@),
            first_named(all, name@) == first_named(all.skip(i as int), name@),
            forall|k: int| 0 <= k < i ==> (#[trigger] all[k]).name != name@,
        decreases entries.len() - i,
    {
        assert(all.skip(i as int)[0] == entries@[i as int]@);
        assert(all.skip(i as int).drop_first() =~= all.skip(i + 1));
        if *entries[i].name.as_str() == *name {
            assert(all[i as int].name == name@);
            return Some(i);
        }
        assert(all[i as int].name != name@);
        i = i + 1;
    }
    None
}

/// Whether two runs of strings are the same.
fn same_strings(a: &Vec<String>, b: &Vec<String>) -> (r: bool)
    ensures
        r == (chars::texts(a@) == chars::texts(b@)),
{
    if a.len() != b.len() {
        assert(chars::texts(a@).len() != chars::texts(b@).len());
        return false;
    }
    let mut i: usize = 0;
    while i < a.len()
        invariant
            i <= a@.len(),
            a@.len() == b@.len(),
            forall|k: int| 0 <= k < i ==> (#[trigger] a@[k])@ == b@[k]@,
        decreases a.len() - i,
    {
        if *a[i].as_str() != *b[i].as_str() {
            assert(chars::texts(a@)[i as int] != chars::texts(b@)[i as int]);
            return false;
        }
        i = i + 1;
    }
    assert(chars::texts(a@) =~= chars::texts(b@));
    true
}

/// The disagreement of `entry` with `outer` and the scopes around that.
fn conflict_with(entry: &Pragma, outer: &PragmaSet) -> (r: Option<PragmaConflict>)
    ensures
        match r {
            Some(c) => disagreement(entry@, outer@) == Some(c@),
            None => disagreement(entry@, outer@) is None,
        },
    decreases outer,
{
    let ghost chain = outer@;
    assert(chain[0] == pragma_views(outer.entries@));
    match find(&outer.entries, entry.name.as_str()) {
        Some(i) => {
            if !same_strings(&outer.entries[i].args, &entry.args) {
                return Some(
                    PragmaConflict {
                        name: entry.name.clone(),
                        outer_line: outer.entries[i].line,
                        inner_line: entry.line,
                    },
                );
            }
        },
        None => {},
    }
    assert(disagreement(entry@, chain) == disagreement(entry@, chain.drop_first()));
    match &outer.parent {
        Some(p) => {
            assert(chain.drop_first() =~= p@);
            conflict_with(entry, p)
        },
        None => {
            assert(chain.drop_first() =~= Seq::<Seq<PragmaV>>::empty());
            None
        },
    }
}

impl PragmaSet {
    /// No pragma, and no scope around.
    pub fn empty() -> (r: PragmaSet)
        ensures
            r@ == seq![Seq::<PragmaV>::empty()],
    {
        let r: PragmaSet = PragmaSet { entries: Vec::new(), parent: None };
        assert(pragma_views(r.entries@) =~= Seq::<PragmaV>::empty());
        r
    }

    /// Whether the pragma `name` is in this scope or one around it.
    pub fn contains(&self, name: &str) -> (r: bool)
        ensures
            r == in_force(self@, name@),
        decreases self,
    {
        let ghost chain = self@;
        assert(chain[0] == pragma_views(self.entries@));
        match find(&self.entries, name) {
            Some(_) => {
                assert(named(chain[0], name@));
                return true;
            },
            None => {},
        }
        match &self.parent {
            Some(p) => {
                let r: bool = p.contains(name);
                proof {
                    let rest = p@;
                    assert forall|k: int| 0 <= k < rest.len() implies rest[k] == chain[k + 1] by {}
                    if r {
                        let k = choose|k: int| 0 <= k < rest.len() && named(rest[k], name@);
                        assert(named(chain[k + 1], name@));
                    }
                    if in_force(chain, name@) {
                        let k = choose|k: int| 0 <= k < chain.len() && named(chain[k], name@);
                        assert(named(rest[k - 1], name@));
                    }
                }
                r
            },
            None => false,
        }
    }

    /// Whether types are asserted on wires.
    pub fn strict_types(&self) -> (r: bool)
        ensures
            r == types_strict(self@),
    {
        self.contains("strict_types") || self.contains("strict")
    }

    /// Whether values are asserted on wires.
    pub fn strict_values(&self) -> (r: bool)
        ensures
            r == values_strict(self@),
    {
        self.contains("strict_values") || self.contains("strict")
    }

    /// The pragmas of this scope alone that are not recognised, in order.
    pub fn unknown(&self) -> (r: Vec<&Pragma>)
        ensures
            Seq::new(r@.len(), |i: int| r@[i]@) == self@[0].filter(
                |p: PragmaV| !recognised(p.name),
            ),
    {
        let ghost all = pragma_views(self.entries@);
        let ghost odd = |p: PragmaV| !recognised(p.name);
        let mut out: Vec<&Pragma> = Vec::new();
        let mut i: usize = 0;
        proof {
            reveal(Seq::filter);
            assert(self@[0] == all);
            assert(Seq::new(out@.len(), |k: int| out@[k]@) =~= all.take(0).filter(odd));
        }
        while i < self.entries.len()
            invariant
                i <= self.entries@.len(),
                all == pragma_views(self.entries@),
                odd == |p: PragmaV| !recognised(p.name),
                Seq::new(out@.len(), |k: int| out@[k]@) == all.take(i as int).filter(odd),
            decreases self.entries.len() - i,
        {
            proof {
                reveal(Seq::filter);
                assert(all.take(i + 1).drop_last() =~= all.take(i as int));
            }
            let ghost before = Seq::new(out@.len(), |k: int| out@[k]@);
            if !is_known(self.entries[i].name.as_str()) {
                out.push(&self.entries[i]);
                assert(Seq::new(out@.len(), |k: int| out@[k]@) =~= before.push(all[i as int]));
            }
            i = i + 1;
        }
        assert(all.take(i as int) =~= all);
        out
    }

    /// Puts this scope into `outer`: the scope with `outer` around it, and
    /// the disagreements of its own pragmas with those around it. What was
    /// around this scope before is let go.
    pub fn attach_to(self, outer: Arc<PragmaSet>) -> (r: (PragmaSet, Vec<PragmaConflict>))
        ensures
            r.0@ == seq![self@[0]] + outer@,
            conflict_views(r.1@) == disagreements(self@[0], outer@),
    {
        let ghost all = pragma_views(self.entries@);
        let mut conflicts: Vec<PragmaConflict> = Vec::new();
        let mut i: usize = 0;
        assert(all.take(0) =~= Seq::<PragmaV>::empty());
        assert(conflict_views(conflicts@) =~= Seq::<ConflictV>::empty());
        while i < self.entries.len()
            invariant
                i <= self.entries@.len(),
                all == pragma_views(self.entries@),
                conflict_views(conflicts@) == disagreements(all.take(i as int), outer@),
            decreases self.entries.len() - i,
        {
            assert(all.take(i + 1).drop_last() =~= all.take(i as int));
            assert(all.take(i + 1).last() == self.entries@[i as int]@);
            let ghost before = conflicts@;
            match conflict_with(&self.entries[i], &outer) {
                Some(c) => {
                    let ghost shown = c@;
                    conflicts.push(c);
                    assert(conflict_views(conflicts@) =~= conflict_views(before).push(shown));
                },
                None => {},
            }
            i = i + 1;
        }
        assert(all.take(i as int) =~= all);
        let attached: PragmaSet = PragmaSet { entries: self.entries, parent: Some(outer) };
        (attached, conflicts)
    }
}

/// The pragmas among a run of statements, in order.
pub open spec fn pragmas_of(stmts: Seq<StatementV>) -> Seq<PragmaV>
    decreases stmts.len(),
{
    if stmts.len() == 0 {
        Seq::empty()
    } else {
        let front = pragmas_of(stmts.drop_last());
        match stmts.last() {
            StatementV::Pragma(name, span) => front.push(
                PragmaV { name, args: Seq::empty(), line: span.line },
            ),
            _ => front,
        }
    }
}

/// The pragmas of a program.
pub fn collect_from_ast(file: &PolydatFile) -> (r: PragmaSet)
    ensures
        r@ == seq![pragmas_of(file@)],
{
    let ghost all = file@;
    let mut entries: Vec<Pragma> = Vec::new();
    let mut i: usize = 0;
    assert(all.take(0) =~= Seq::<StatementV>::empty());
    assert(pragma_views(entries@) =~= Seq::<PragmaV>::empty());
    while i < file.statements.len()
        invariant
            i <= file.statements@.len(),
            all == ast::statement_views(file.statements@),
            pragma_views(entries@) == pragmas_of(all.take(i as int)),
        decreases file.statements.len() - i,
    {
        assert(all.take(i + 1).drop_last() =~= all.take(i as int));
        assert(all.take(i + 1).last() == file.statements@[i as int]@);
        let ghost before = entries@;
        match &file.statements[i] {
            Statement::Pragma { name, span } => {
                let p: Pragma = Pragma {
                    name: name.clone(),
                    args: Vec::new(),
                    line: span.line,
                };
                let ghost shown = p@;
                assert(shown.args =~= Seq::<Seq<char>>::empty());
                entries.push(p);
                assert(pragma_views(entries@) =~= pragma_views(before).push(shown));
            },
            _ => {},
        }
        i = i + 1;
    }
    assert(all.take(i as int) =~= all);
    PragmaSet { entries, parent: None }
}

/// A scope that is put into another sees every pragma that either sees of
/// its own.
pub proof fn law_inherits(own: Seq<PragmaV>, around: Seq<Seq<PragmaV>>, name: Seq<char>)
    ensures
        in_force(seq![own] + around, name) == (named(own, name) || in_force(around, name)),
{
    let chain = seq![own] + around;
    if named(own, name) {
        assert(named(chain[0], name));
    }
    if in_force(around, name) {
        let k = choose|k: int| 0 <= k < around.len() && named(around[k], name);
        assert(named(chain[k + 1], name));
    }
    if in_force(chain, name) {
        let k = choose|k: int| 0 <= k < chain.len() && named(chain[k], name);
        if k > 0 {
            assert(named(around[k - 1], name));
        }
    }
}

/// Scopes that agree on the arguments of every name they share report no
/// disagreement.
pub proof fn law_agreement(own: Seq<PragmaV>, around: Seq<Seq<PragmaV>>)
    requires
        forall|i: int, k: int, j: int|
            0 <= i < own.len() && 0 <= k < around.len() && 0 <= j < around[k].len()
                && own[i].name == around[k][j].name ==> own[i].args == (
            #[trigger] around[k][j]).args && (#[trigger] own[i]).args == own[i].args,
    ensures
        disagreements(own, around) == Seq::<ConflictV>::empty(),
    decreases own.len(),
{
    if own.len() > 0 {
        law_agreement(own.drop_last(), around);
        assert(own.last() == own[own.len() - 1]);
        lemma_agrees(own.last(), around);
    }
}

proof fn lemma_first_named(s: Seq<PragmaV>, name: Seq<char>)
    ensures
        match first_named(s, name) {
            Some(p) => exists|j: int| 0 <= j < s.len() && #[trigger] s[j] == p && p.name == name,
            None => true,
        },
    decreases s.len(),
{
    if s.len() > 0 {
        if s[0].name == name {
            assert(s[0] == first_named(s, name)->Some_0);
        } else {
            let rest = s.drop_first();
            lemma_first_named(rest, name);
            match first_named(rest, name) {
                Some(p) => {
                    let j = choose|j: int| 0 <= j < rest.len() && rest[j] == p && p.name == name;
                    assert(s[j + 1] == p);
                },
                None => {},
            }
        }
    }
}

proof fn lemma_agrees(entry: PragmaV, around: Seq<Seq<PragmaV>>)
    requires
        forall|k: int, j: int|
            0 <= k < around.len() && 0 <= j < around[k].len() && entry.name == around[k][j].name
                ==> entry.args == (#[trigger] around[k][j]).args,
    ensures
        disagreement(entry, around) is None,
    decreases around.len(),
{
    if around.len() > 0 {
        let rest = around.drop_first();
        assert forall|k: int, j: int|
            0 <= k < rest.len() && 0 <= j < rest[k].len() && entry.name
                == rest[k][j].name implies entry.args == (#[trigger] rest[k][j]).args by {
            assert(rest[k][j] == around[k + 1][j]);
        }
        lemma_agrees(entry, rest);
        lemma_first_named(around[0], entry.name);
    }
}

} // verus!
