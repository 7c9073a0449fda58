//! Comprehensions as they are written: clauses, a filter and an order.
//!
//! A clause binds one name to the values of one expression, or several
//! names to those of as many expressions, side by side. Clauses combine to
//! every combination, or stand in sub-spaces one after the other.
use crate::chars;
use vstd::prelude::*;

verus! {

/// One or more names with the expressions their values come from.
#[derive(Debug, PartialEq, Eq)]
pub struct Clause {
    pub vars: Vec<String>,
    pub source: ClauseSource,
}

/// The expressions of a clause.
#[derive(Debug, PartialEq, Eq)]
pub enum ClauseSource {
    /// One expression.
    Single(String),
    /// One expression for each name, side by side.
    Parallel { mode: ZipMode, exprs: Vec<String> },
}

/// What happens to expressions of different lengths.
#[derive(Clone, Copy, Debug, PartialEq, Eq, Structural)]
pub enum ZipMode {
    /// Lengths have to agree.
    Strict,
    /// Cut to the shortest.
    Truncate,
    /// Repeat the shorter ones to the longest.
    Cycle,
}

/// The content of a clause.
#[verifier::ext_equal]
pub struct ClauseV {
    pub vars: Seq<Seq<char>>,
    pub source: ClauseSourceV,
}

/// The content of the expressions of a clause.
#[verifier::ext_equal]
pub enum ClauseSourceV {
    Single(Seq<char>),
    Parallel(ZipMode, Seq<Seq<char>>),
}

impl View for ClauseSource {
    type V = ClauseSourceV;

    open spec fn view(&self) -> ClauseSourceV {
        match *self {
            ClauseSource::Single(s) => ClauseSourceV::Single(s@),
            ClauseSource::Parallel { mode, exprs } => ClauseSourceV::Parallel(
                mode,
                chars::texts(exprs@),
            ),
        }
    }
}

impl View for Clause {
    type V = ClauseV;

    open spec fn view(&self) -> ClauseV {
        ClauseV { vars: chars::texts(self.vars@), source: self.source@ }
    }
}

/// The contents of a run of clauses.
pub open spec fn clause_views(s: Seq<Clause>) -> Seq<ClauseV> {
    Seq::new(s.len(), |i: int| s[i]@)
}

/// The names of a clause with their expressions. A single expression goes
/// with every name.
pub open spec fn clause_pairs(c: ClauseV) -> Seq<(Seq<char>, Seq<char>)> {
    match c.source {
        ClauseSourceV::Single(s) => Seq::new(c.vars.len(), |i: int| (c.vars[i], s)),
        ClauseSourceV::Parallel(_, exprs) => Seq::new(
            if c.vars.len() < exprs.len() {
                c.vars.len()
            } else {
                exprs.len()
            },
            |i: int| (c.vars[i], exprs[i]),
        ),
    }
}

/// The text of a clause.
pub open spec fn clause_text(c: ClauseV) -> Seq<char> {
    match c.source {
        ClauseSourceV::Single(s) => c.vars[0] + " in "@ + s,
        ClauseSourceV::Parallel(mode, exprs) => "("@ + chars::joined(c.vars, ", "@) + ") in "@ + (
        match mode {
            ZipMode::Strict => "("@,
            ZipMode::Truncate => "zip_truncate("@,
            ZipMode::Cycle => "zip_cycle("@,
        }) + chars::joined(exprs, ", "@) + ")"@,
    }
}

impl Clause {
    /// One name with one expression.
    pub fn new(var: &str, expr: &str) -> (r: Clause)
        ensures
            r@ == (ClauseV { vars: seq![var@], source: ClauseSourceV::Single(expr@) }),
    {
        let r = Clause {
            vars: vec![var.to_owned()],
            source: ClauseSource::Single(expr.to_owned()),
        };
        assert(r@.vars =~= seq![var@]);
        r
    }

    /// Several names side by side; the lengths have to agree.
    pub fn parallel(vars: &[&str], exprs: &[&str]) -> (r: Clause)
        requires
            vars@.len() == exprs@.len(),
            vars@.len() >= 2,
        ensures
            r@ == (ClauseV {
                vars: chars::slices(vars@),
                source: ClauseSourceV::Parallel(ZipMode::Strict, chars::slices(exprs@)),
            }),
    {
        Clause::parallel_with_mode(ZipMode::Strict, vars, exprs)
    }

    /// Several names side by side.
    pub fn parallel_with_mode(mode: ZipMode, vars: &[&str], exprs: &[&str]) -> (r: Clause)
        requires
            vars@.len() == exprs@.len(),
            vars@.len() >= 2,
        ensures
            r@ == (ClauseV {
                vars: chars::slices(vars@),
                source: ClauseSourceV::Parallel(mode, chars::slices(exprs@)),
            }),
    {
        Clause {
            vars: chars::owned(vars),
            source: ClauseSource::Parallel { mode, exprs: chars::owned(exprs) },
        }
    }

    /// The name, where there is one alone.
    pub fn single_var(&self) -> (r: Option<&str>)
        ensures
            r is Some <==> self@.vars.len() == 1,
            r matches Some(v) ==> v@ == self@.vars[0],
    {
        if self.vars.len() == 1 {
            Some(self.vars[0].as_str())
        } else {
            None
        }
    }

    /// The expression, where there is one for all names.
    pub fn single_expr(&self) -> (r: Option<&str>)
        ensures
            match (r, self@.source) {
                (Some(e), ClauseSourceV::Single(want)) => e@ == want,
                (None, ClauseSourceV::Parallel(_, _)) => true,
                _ => false,
            },
    {
        match &self.source {
            ClauseSource::Single(s) => Some(s.as_str()),
            ClauseSource::Parallel { .. } => None,
        }
    }

    /// Whether the names have an expression each.
    pub fn is_parallel(&self) -> (r: bool)
        ensures
            r == (self@.source is Parallel),
    {
        matches!(self.source, ClauseSource::Parallel { .. })
    }

    /// The first name.
    pub fn first_var(&self) -> (r: &str)
        requires
            self@.vars.len() > 0,
        ensures
            r@ == self@.vars[0],
    {
        self.vars[0].as_str()
    }

    /// The first name.
    pub fn var(&self) -> (r: &str)
        requires
            self@.vars.len() > 0,
        ensures
            r@ == self@.vars[0],
    {
        self.vars[0].as_str()
    }

    /// The first expression.
    pub fn expr(&self) -> (r: &str)
        requires
            self@.source matches ClauseSourceV::Parallel(_, exprs) ==> exprs.len() > 0,
        ensures
            r@ == match self@.source {
                ClauseSourceV::Single(s) => s,
                ClauseSourceV::Parallel(_, exprs) => exprs[0],
            },
    {
        match &self.source {
            ClauseSource::Single(s) => s.as_str(),
            ClauseSource::Parallel { exprs, .. } => exprs[0].as_str(),
        }
    }

    /// The names with their expressions.
    pub fn scalar_bindings(&self) -> (r: Vec<(&str, &str)>)
        ensures
            r@.len() == clause_pairs(self@).len(),
            forall|i: int|
                0 <= i < r@.len() ==> ((#[trigger] r@[i]).0@, r@[i].1@) == clause_pairs(self@)[i],
    {
        let mut out: Vec<(&str, &str)> = Vec::new();
        match &self.source {
            ClauseSource::Single(s) => {
                let mut i: usize = 0;
                while i < self.vars.len()
                    invariant
                        i <= self.vars@.len(),
                        out@.len() == i,
                        self.source == ClauseSource::Single(*s),
                        forall|k: int|
                            0 <= k < i ==> ((#[trigger] out@[k]).0@, out@[k].1@) == (
                                self.vars@[k]@,
                                s@,
                            ),
                    decreases self.vars.len() - i,
                {
                    out.push((self.vars[i].as_str(), s.as_str()));
                    i = i + 1;
                }
            },
            ClauseSource::Parallel { exprs, .. } => {
                let mut i: usize = 0;
                while i < self.vars.len() && i < exprs.len()
                    invariant
                        i <= self.vars@.len(),
                        i <= exprs@.len(),
                        out@.len() == i,
                        forall|k: int|
                            0 <= k < i ==> ((#[trigger] out@[k]).0@, out@[k].1@) == (
                                self.vars@[k]@,
                                exprs@[k]@,
                            ),
                    decreases self.vars.len() - i,
                {
                    out.push((self.vars[i].as_str(), exprs[i].as_str()));
                    i = i + 1;
                }
            },
        }
        out
    }

    /// The text of the clause.
    pub fn to_string(&self) -> (r: String)
        requires
            self@.source is Single ==> self@.vars.len() > 0,
        ensures
            r@ == clause_text(self@),
    {
        match &self.source {
            ClauseSource::Single(s) => {
                let mut out: String = self.vars[0].clone();
                out.append(" in ");
                out.append(s.as_str());
                out
            },
            ClauseSource::Parallel { mode, exprs } => {
                let mut out: String = "(".to_owned();
                out.append(chars::join(&self.vars, ", ").as_str());
                out.append(") in ");
                out.append(
                    match mode {
                        ZipMode::Strict => "(",
                        ZipMode::Truncate => "zip_truncate(",
                        ZipMode::Cycle => "zip_cycle(",
                    },
                );
                out.append(chars::join(exprs, ", ").as_str());
                out.append(")");
                out
            },
        }
    }
}

/// How the clauses of a comprehension combine.
#[derive(Debug, PartialEq, Eq)]
pub enum ComprehensionMode {
    /// Every combination of the clauses.
    Cartesian(Vec<Clause>),
    /// The combinations of each sub-space, one after the other.
    Union(Vec<Subspace>),
}

/// Clauses that combine among themselves.
#[derive(Debug, PartialEq, Eq)]
pub struct Subspace {
    pub clauses: Vec<Clause>,
}

impl View for Subspace {
    type V = Seq<ClauseV>;

    open spec fn view(&self) -> Seq<ClauseV> {
        clause_views(self.clauses@)
    }
}

/// The contents of a run of sub-spaces.
pub open spec fn subspace_views(s: Seq<Subspace>) -> Seq<Seq<ClauseV>> {
    Seq::new(s.len(), |i: int| s[i]@)
}

impl Subspace {
    /// A sub-space of these clauses.
    pub fn new(clauses: Vec<Clause>) -> (r: Subspace)
        ensures
            r@ == clause_views(clauses@),
    {
        Subspace { clauses }
    }

    /// Whether there are no clauses.
    pub fn is_empty(&self) -> (r: bool)
        ensures
            r == (self@.len() == 0),
    {
        self.clauses.len() == 0
    }

    /// The number of clauses.
    pub fn len(&self) -> (r: usize)
        ensures
            r == self@.len(),
    {
        self.clauses.len()
    }

    /// The clauses, in order.
    pub fn iter(&self) -> (r: &[Clause])
        ensures
            clause_views(r@) == self@,
    {
        self.clauses.as_slice()
    }
}

/// The order in which combinations come.
#[derive(Debug, PartialEq, Eq)]
pub enum TraversalOrder {
    /// The last clause varies fastest.
    Lex { count: Option<usize> },
    /// The first clause varies fastest.
    ReverseLex { count: Option<usize> },
    /// Ascending index sums.
    Diagonal { count: Option<usize> },
    /// Descending index sums.
    Antidiagonal { count: Option<usize> },
    /// Corners first; `strata` keeps that many strata.
    Extrema { strata: Option<usize> },
    /// Concentric shells.
    Shells { origin: ShellOrigin, depth: Option<usize> },
    /// Halton low-discrepancy sequence.
    Halton { count: Option<usize> },
    /// Sobol low-discrepancy sequence.
    Sobol { count: Option<usize> },
    /// Latin hypercube samples.
    Lhs { count: Option<usize>, seed: Option<u64> },
    /// A function of the user's.
    Custom { function: String },
}

/// Where shells start.
#[derive(Clone, Copy, Debug, PartialEq, Eq, Structural)]
pub enum ShellOrigin {
    /// At the boundary, inward.
    Outer,
    /// At the center, outward.
    Center,
    /// At the first corner, outward.
    Corner,
}

impl Default for ShellOrigin {
    fn default() -> (r: ShellOrigin)
        ensures
            r == ShellOrigin::Outer,
    {
        ShellOrigin::Outer
    }
}

impl Default for ZipMode {
    fn default() -> (r: ZipMode)
        ensures
            r == ZipMode::Strict,
    {
        ZipMode::Strict
    }
}

/// The content of an order.
#[verifier::ext_equal]
pub enum OrderV {
    Lex(Option<usize>),
    ReverseLex(Option<usize>),
    Diagonal(Option<usize>),
    Antidiagonal(Option<usize>),
    Extrema(Option<usize>),
    Shells(ShellOrigin, Option<usize>),
    Halton(Option<usize>),
    Sobol(Option<usize>),
    Lhs(Option<usize>, Option<u64>),
    Custom(Seq<char>),
}

impl View for TraversalOrder {
    type V = OrderV;

    open spec fn view(&self) -> OrderV {
        match *self {
            TraversalOrder::Lex { count } => OrderV::Lex(count),
            TraversalOrder::ReverseLex { count } => OrderV::ReverseLex(count),
            TraversalOrder::Diagonal { count } => OrderV::Diagonal(count),
            TraversalOrder::Antidiagonal { count } => OrderV::Antidiagonal(count),
            TraversalOrder::Extrema { strata } => OrderV::Extrema(strata),
            TraversalOrder::Shells { origin, depth } => OrderV::Shells(origin, depth),
            TraversalOrder::Halton { count } => OrderV::Halton(count),
            TraversalOrder::Sobol { count } => OrderV::Sobol(count),
            TraversalOrder::Lhs { count, seed } => OrderV::Lhs(count, seed),
            TraversalOrder::Custom { function } => OrderV::Custom(function@),
        }
    }
}

/// A comprehension as it is written.
#[derive(Debug, PartialEq, Eq)]
pub struct Comprehension {
    pub mode: ComprehensionMode,
    /// A condition that a combination has to meet.
    pub filter: Option<String>,
    pub order: Option<TraversalOrder>,
}

/// The content of a mode.
#[verifier::ext_equal]
pub enum ModeV {
    Cartesian(Seq<ClauseV>),
    Union(Seq<Seq<ClauseV>>),
}

/// The content of a comprehension.
#[verifier::ext_equal]
pub struct WrittenV {
    pub mode: ModeV,
    pub filter: Option<Seq<char>>,
    pub order: Option<OrderV>,
}

impl View for ComprehensionMode {
    type V = ModeV;

    open spec fn view(&self) -> ModeV {
        match *self {
            ComprehensionMode::Cartesian(clauses) => ModeV::Cartesian(clause_views(clauses@)),
            ComprehensionMode::Union(subspaces) => ModeV::Union(subspace_views(subspaces@)),
        }
    }
}

impl View for Comprehension {
    type V = WrittenV;

    open spec fn view(&self) -> WrittenV {
        WrittenV {
            mode: self.mode@,
            filter: match self.filter {
                Some(f) => Some(f@),
                None => None,
            },
            order: match self.order {
                Some(o) => Some(o@),
                None => None,
            },
        }
    }
}

/// The clauses of sub-spaces, one after the other.
pub open spec fn flat_subspaces(s: Seq<Seq<ClauseV>>) -> Seq<ClauseV>
    decreases s.len(),
{
    if s.len() == 0 {
        Seq::empty()
    } else {
        flat_subspaces(s.drop_last()) + s.last()
    }
}

/// The clauses of a mode, in order.
pub open spec fn flat(m: ModeV) -> Seq<ClauseV> {
    match m {
        ModeV::Cartesian(clauses) => clauses,
        ModeV::Union(subspaces) => flat_subspaces(subspaces),
    }
}

/// The names of a run of clauses, in order, with repetition.
pub open spec fn names_of(s: Seq<ClauseV>) -> Seq<Seq<char>>
    decreases s.len(),
{
    if s.len() == 0 {
        Seq::empty()
    } else {
        names_of(s.drop_last()) + s.last().vars
    }
}

/// The first occurrences of a run, in order.
pub open spec fn firsts(s: Seq<Seq<char>>) -> Seq<Seq<char>>
    decreases s.len(),
{
    if s.len() == 0 {
        Seq::empty()
    } else if firsts(s.drop_last()).contains(s.last()) {
        firsts(s.drop_last())
    } else {
        firsts(s.drop_last()).push(s.last())
    }
}

/// What is said of a name that a product repeats.
pub open spec fn repeat_text(v: Seq<char>) -> Seq<char> {
    "Cartesian comprehension repeats variable name '"@ + v
        + "' — name collision across clauses (use Union mode for alternative sub-spaces with shared coordinate names)"@
}

/// What is said of the names of a product: one message for each that stood
/// before.
pub open spec fn repeat_errors(s: Seq<Seq<char>>) -> Seq<Seq<char>>
    decreases s.len(),
{
    if s.len() == 0 {
        Seq::empty()
    } else if firsts(s.drop_last()).contains(s.last()) {
        repeat_errors(s.drop_last()).push(repeat_text(s.last()))
    } else {
        repeat_errors(s.drop_last())
    }
}

/// What is said of the sub-spaces of a union: one message for each empty
/// one.
pub open spec fn subspace_errors(s: Seq<Seq<ClauseV>>) -> Seq<Seq<char>>
    decreases s.len(),
{
    if s.len() == 0 {
        Seq::empty()
    } else if s.last().len() == 0 {
        subspace_errors(s.drop_last()).push(
            "Union sub-space #"@ + chars::decimal((s.len() - 1) as nat) + " has no clauses"@,
        )
    } else {
        subspace_errors(s.drop_last())
    }
}

/// The name of an order that needs a single lattice.
pub open spec fn lattice_order(o: OrderV) -> Option<Seq<char>> {
    match o {
        OrderV::Lex(_) => None,
        OrderV::Custom(_) => None,
        OrderV::ReverseLex(_) => Some("reverse_lex"@),
        OrderV::Diagonal(_) => Some("diagonal"@),
        OrderV::Antidiagonal(_) => Some("antidiagonal"@),
        OrderV::Extrema(_) => Some("extrema"@),
        OrderV::Shells(_, _) => Some("shells"@),
        OrderV::Halton(_) => Some("halton"@),
        OrderV::Sobol(_) => Some("sobol"@),
        OrderV::Lhs(_, _) => Some("lhs"@),
    }
}

/// What is said of an order: a union has no single lattice.
pub open spec fn order_error(m: ModeV, o: Option<OrderV>) -> Option<Seq<char>> {
    match (m, o) {
        (ModeV::Union(_), Some(order)) => match lattice_order(order) {
            Some(name) => Some(
                "ordering '"@ + name
                    + "' has no defined behavior on Union mode (no single Cartesian lattice). Use Cartesian mode, or pick 'lex' / 'custom' which are well-defined on Union."@,
            ),
            None => None,
        },
        _ => None,
    }
}

/// What is said of a comprehension.
pub open spec fn errors_of(c: WrittenV) -> Seq<Seq<char>> {
    (match c.mode {
        ModeV::Cartesian(clauses) => (if clauses.len() == 0 {
            seq!["Cartesian comprehension has no clauses"@]
        } else {
            Seq::empty()
        }) + repeat_errors(names_of(clauses)),
        ModeV::Union(subspaces) => (if subspaces.len() == 0 {
            seq!["Union comprehension has no sub-spaces"@]
        } else {
            Seq::empty()
        }) + subspace_errors(subspaces),
    }) + (match order_error(c.mode, c.order) {
        Some(e) => seq![e],
        None => Seq::empty(),
    })
}

/// Whether a clause can be written.
pub open spec fn writable(c: ClauseV) -> bool {
    c.source is Single ==> c.vars.len() > 0
}

/// Whether every clause of a run can be written.
pub open spec fn all_writable(s: Seq<ClauseV>) -> bool {
    forall|i: int| 0 <= i < s.len() ==> writable(#[trigger] s[i])
}

/// The texts of a run of clauses.
pub open spec fn clause_texts(s: Seq<ClauseV>) -> Seq<Seq<char>> {
    s.map_values(|c: ClauseV| clause_text(c))
}

/// The number behind a slash, where there is one.
pub open spec fn count_suffix(n: Option<usize>) -> Seq<char> {
    match n {
        Some(k) => "/"@ + chars::decimal(k as nat),
        None => Seq::empty(),
    }
}

/// The text of an order.
pub open spec fn order_text(o: OrderV) -> Seq<char> {
    match o {
        OrderV::Lex(n) => "lex"@ + count_suffix(n),
        OrderV::ReverseLex(n) => "reverse_lex"@ + count_suffix(n),
        OrderV::Diagonal(n) => "diagonal"@ + count_suffix(n),
        OrderV::Antidiagonal(n) => "antidiagonal"@ + count_suffix(n),
        OrderV::Extrema(n) => "extrema"@ + count_suffix(n),
        OrderV::Shells(origin, n) => "shells"@ + (match origin {
            ShellOrigin::Outer => ""@,
            ShellOrigin::Center => "/center"@,
            ShellOrigin::Corner => "/corner"@,
        }) + count_suffix(n),
        OrderV::Halton(n) => "halton"@ + count_suffix(n),
        OrderV::Sobol(n) => "sobol"@ + count_suffix(n),
        OrderV::Lhs(n, seed) => "lhs"@ + count_suffix(n) + (match seed {
            Some(k) => " seed="@ + chars::decimal(k as nat),
            None => Seq::empty(),
        }),
        OrderV::Custom(f) => "custom("@ + f + ")"@,
    }
}

/// The text of a comprehension: its clauses, its filter, its order.
pub open spec fn written_text(c: WrittenV) -> Seq<char> {
    (match c.mode {
        ModeV::Cartesian(clauses) => chars::joined(clause_texts(clauses), ", "@),
        ModeV::Union(subspaces) => chars::joined(
            subspaces.map_values(|s: Seq<ClauseV>| chars::joined(clause_texts(s), ", "@)),
            " | "@,
        ),
    }) + (match c.filter {
        Some(p) => " where "@ + p,
        None => Seq::empty(),
    }) + (match c.order {
        Some(o) => " order "@ + order_text(o),
        None => Seq::empty(),
    })
}

/// The texts of `clauses` with commas between them.
fn join_clauses(clauses: &Vec<Clause>) -> (r: String)
    requires
        all_writable(clause_views(clauses@)),
    ensures
        r@ == chars::joined(clause_texts(clause_views(clauses@)), ", "@),
{
    let ghost views = clause_views(clauses@);
    let mut parts: Vec<String> = Vec::new();
    let mut i: usize = 0;
    while i < clauses.len()
        invariant
            i <= clauses@.len(),
            views == clause_views(clauses@),
            all_writable(views),
            parts@.len() == i,
            forall|k: int| 0 <= k < i ==> (#[trigger] parts@[k])@ == clause_text(views[k]),
        decreases clauses.len() - i,
    {
        assert(views[i as int] == clauses@[i as int]@);
        parts.push(clauses[i].to_string());
        i = i + 1;
    }
    assert(chars::texts(parts@) =~= clause_texts(views));
    chars::join(&parts, ", ")
}

/// The number behind a slash, where there is one, after `head`.
fn with_count(head: &str, n: Option<usize>) -> (r: String)
    ensures
        r@ == head@ + count_suffix(n),
{
    let mut out: String = head.to_owned();
    if let Some(k) = n {
        out.append("/");
        out.append(chars::usize_text(k).as_str());
    }
    assert(out@ =~= head@ + count_suffix(n));
    out
}

/// The text of `order`.
pub fn format_order(order: &TraversalOrder) -> (r: String)
    ensures
        r@ == order_text(order@),
{
    match order {
        TraversalOrder::Lex { count } => with_count("lex", *count),
        TraversalOrder::ReverseLex { count } => with_count("reverse_lex", *count),
        TraversalOrder::Diagonal { count } => with_count("diagonal", *count),
        TraversalOrder::Antidiagonal { count } => with_count("antidiagonal", *count),
        TraversalOrder::Extrema { strata } => with_count("extrema", *strata),
        TraversalOrder::Shells { origin, depth } => {
            let mut head: String = "shells".to_owned();
            head.append(
                match origin {
                    ShellOrigin::Outer => "",
                    ShellOrigin::Center => "/center",
                    ShellOrigin::Corner => "/corner",
                },
            );
            with_count(head.as_str(), *depth)
        },
        TraversalOrder::Halton { count } => with_count("halton", *count),
        TraversalOrder::Sobol { count } => with_count("sobol", *count),
        TraversalOrder::Lhs { count, seed } => {
            let mut out: String = with_count("lhs", *count);
            let ghost head = out@;
            if let Some(k) = seed {
                out.append(" seed=");
                out.append(chars::u64_text(*k).as_str());
            }
            assert(out@ =~= order_text(order@));
            out
        },
        TraversalOrder::Custom { function } => {
            let mut out: String = "custom(".to_owned();
            out.append(function.as_str());
            out.append(")");
            out
        },
    }
}

/// What is said of `order` under `mode`.
pub(crate) fn check_order_for_mode(
    mode: &ComprehensionMode,
    order: &Option<TraversalOrder>,
) -> (r: Result<(), String>)
    ensures
        match (r, order_error(
            mode@,
            match *order {
                Some(o) => Some(o@),
                None => None,
            },
        )) {
            (Ok(_), None) => true,
            (Err(e), Some(want)) => e@ == want,
            _ => false,
        },
{
    if !matches!(mode, ComprehensionMode::Union(_)) {
        return Ok(());
    }
    let strategy_name: &str = match order {
        None => return Ok(()),
        Some(TraversalOrder::Lex { .. }) => return Ok(()),
        Some(TraversalOrder::Custom { .. }) => return Ok(()),
        Some(TraversalOrder::ReverseLex { .. }) => "reverse_lex",
        Some(TraversalOrder::Diagonal { .. }) => "diagonal",
        Some(TraversalOrder::Antidiagonal { .. }) => "antidiagonal",
        Some(TraversalOrder::Extrema { .. }) => "extrema",
        Some(TraversalOrder::Shells { .. }) => "shells",
        Some(TraversalOrder::Halton { .. }) => "halton",
        Some(TraversalOrder::Sobol { .. }) => "sobol",
        Some(TraversalOrder::Lhs { .. }) => "lhs",
    };
    let mut out: String = "ordering '".to_owned();
    out.append(strategy_name);
    out.append(
        "' has no defined behavior on Union mode (no single Cartesian lattice). Use Cartesian mode, or pick 'lex' / 'custom' which are well-defined on Union.",
    );
    Err(out)
}

/// What is said of a name that a product repeats.
fn repeat_message(v: &str) -> (r: String)
    ensures
        r@ == repeat_text(v@),
{
    let mut out: String = "Cartesian comprehension repeats variable name '".to_owned();
    out.append(v);
    out.append(
        "' — name collision across clauses (use Union mode for alternative sub-spaces with shared coordinate names)",
    );
    out
}

/// Add one text to a run.
fn push_text(out: &mut Vec<String>, t: String)
    ensures
        chars::texts(final(out)@) == chars::texts(old(out)@).push(t@),
{
    out.push(t);
    assert(chars::texts(out@) =~= chars::texts(old(out)@).push(t@));
}

impl Comprehension {
    /// Every combination of `clauses`.
    pub fn cartesian(clauses: Vec<Clause>) -> (r: Comprehension)
        ensures
            r@ == (WrittenV {
                mode: ModeV::Cartesian(clause_views(clauses@)),
                filter: None,
                order: None,
            }),
    {
        Comprehension { mode: ComprehensionMode::Cartesian(clauses), filter: None, order: None }
    }

    /// The combinations of each sub-space, one after the other.
    pub fn union(subspaces: Vec<Vec<Clause>>) -> (r: Comprehension)
        ensures
            r@ == (WrittenV {
                mode: ModeV::Union(
                    Seq::new(subspaces@.len(), |i: int| clause_views(subspaces@[i]@)),
                ),
                filter: None,
                order: None,
            }),
    {
        let ghost all = subspaces@;
        let mut rest: Vec<Vec<Clause>> = subspaces;
        let mut backward: Vec<Subspace> = Vec::new();
        while rest.len() > 0
            invariant
                rest@.len() + backward@.len() == all.len(),
                rest@ == all.take(rest@.len() as int),
                forall|k: int|
                    0 <= k < backward@.len() ==> (#[trigger] backward@[k])@ == clause_views(
                        all[all.len() - 1 - k]@,
                    ),
            decreases rest.len(),
        {
            let ghost n = rest@.len();
            let last: Vec<Clause> = rest.pop().unwrap();
            assert(last@ == all[n - 1]@);
            assert(rest@ =~= all.take(rest@.len() as int));
            backward.push(Subspace::new(last));
        }
        let mut wrapped: Vec<Subspace> = Vec::new();
        while backward.len() > 0
            invariant
                backward@.len() + wrapped@.len() == all.len(),
                forall|k: int|
                    0 <= k < backward@.len() ==> (#[trigger] backward@[k])@ == clause_views(
                        all[all.len() - 1 - k]@,
                    ),
                forall|k: int|
                    0 <= k < wrapped@.len() ==> (#[trigger] wrapped@[k])@ == clause_views(all[k]@),
            decreases backward.len(),
        {
            let ghost n = backward@.len();
            assert(backward@[n - 1]@ == clause_views(all[all.len() - n]@));
            wrapped.push(backward.pop().unwrap());
        }
        assert(subspace_views(wrapped@) =~= Seq::new(
            all.len(),
            |i: int| clause_views(all[i]@),
        ));
        Comprehension::union_from(wrapped)
    }

    /// The combinations of each sub-space, one after the other.
    pub fn union_from(subspaces: Vec<Subspace>) -> (r: Comprehension)
        ensures
            r@ == (WrittenV {
                mode: ModeV::Union(subspace_views(subspaces@)),
                filter: None,
                order: None,
            }),
    {
        Comprehension { mode: ComprehensionMode::Union(subspaces), filter: None, order: None }
    }

    /// The comprehension with a filter.
    pub fn with_filter(self, predicate: &str) -> (r: Comprehension)
        ensures
            r@ == (WrittenV { filter: Some(predicate@), ..self@ }),
    {
        Comprehension { mode: self.mode, filter: Some(predicate.to_owned()), order: self.order }
    }

    /// The comprehension with an order.
    pub fn with_order(self, order: TraversalOrder) -> (r: Comprehension)
        ensures
            r@ == (WrittenV { order: Some(order@), ..self@ }),
    {
        Comprehension { mode: self.mode, filter: self.filter, order: Some(order) }
    }

    /// The names that the comprehension binds, each once, in the order of
    /// their first occurrence.
    pub fn coordinate_names(&self) -> (r: Vec<&str>)
        ensures
            chars::slices(r@) == firsts(names_of(flat(self@.mode))),
    {
        let clauses: Vec<&Clause> = self.flat_clauses();
        first_names(&clauses)
    }

    /// The clauses, in order, with repetition.
    pub fn flat_clauses(&self) -> (r: Vec<&Clause>)
        ensures
            ref_views(r@) == flat(self@.mode),
    {
        let mut out: Vec<&Clause> = Vec::new();
        match &self.mode {
            ComprehensionMode::Cartesian(clauses) => {
                add_clauses(&mut out, clauses);
                assert(ref_views(out@) =~= clause_views(clauses@));
            },
            ComprehensionMode::Union(subspaces) => {
                let ghost all = subspace_views(subspaces@);
                let mut i: usize = 0;
                assert(all.take(0) =~= Seq::<Seq<ClauseV>>::empty());
                assert(ref_views(out@) =~= Seq::<ClauseV>::empty());
                while i < subspaces.len()
                    invariant
                        i <= subspaces@.len(),
                        all == subspace_views(subspaces@),
                        ref_views(out@) == flat_subspaces(all.take(i as int)),
                    decreases subspaces.len() - i,
                {
                    assert(all.take(i + 1).drop_last() =~= all.take(i as int));
                    assert(all.take(i + 1).last() == subspaces@[i as int]@);
                    add_clauses(&mut out, &subspaces[i].clauses);
                    i = i + 1;
                }
                assert(all.take(i as int) =~= all);
            },
        }
        out
    }

    /// The number of clauses, with repetition.
    pub fn clause_count(&self) -> (r: usize)
        ensures
            r == flat(self@.mode).len(),
    {
        let all: Vec<&Clause> = self.flat_clauses();
        assert(ref_views(all@).len() == all@.len());
        all.len()
    }

    /// Whether the clauses combine among themselves.
    pub fn is_cartesian(&self) -> (r: bool)
        ensures
            r == (self@.mode is Cartesian),
    {
        matches!(self.mode, ComprehensionMode::Cartesian(_))
    }

    /// Whether there are sub-spaces.
    pub fn is_union(&self) -> (r: bool)
        ensures
            r == (self@.mode is Union),
    {
        matches!(self.mode, ComprehensionMode::Union(_))
    }

    /// Whether the comprehension's structure is sound; what is said of it
    /// otherwise.
    pub fn validate(&self) -> (r: Result<(), Vec<String>>)
        ensures
            r is Ok <==> errors_of(self@).len() == 0,
            r matches Err(e) ==> chars::texts(e@) == errors_of(self@),
    {
        let mut errors: Vec<String> = Vec::new();
        assert(chars::texts(errors@) =~= Seq::<Seq<char>>::empty());
        let ghost mode_errors = match self@.mode {
            ModeV::Cartesian(clauses) => (if clauses.len() == 0 {
                seq!["Cartesian comprehension has no clauses"@]
            } else {
                Seq::empty()
            }) + repeat_errors(names_of(clauses)),
            ModeV::Union(subspaces) => (if subspaces.len() == 0 {
                seq!["Union comprehension has no sub-spaces"@]
            } else {
                Seq::empty()
            }) + subspace_errors(subspaces),
        };
        match &self.mode {
            ComprehensionMode::Cartesian(clauses) => {
                if clauses.len() == 0 {
                    push_text(&mut errors, "Cartesian comprehension has no clauses".to_owned());
                }
                let ghost head = chars::texts(errors@);
                let mut refs: Vec<&Clause> = Vec::new();
                add_clauses(&mut refs, clauses);
                assert(ref_views(refs@) =~= clause_views(clauses@));
                add_repeats(&mut errors, &refs);
                assert(head =~= (if clauses@.len() == 0 {
                    seq!["Cartesian comprehension has no clauses"@]
                } else {
                    Seq::empty()
                }));
            },
            ComprehensionMode::Union(subspaces) => {
                if subspaces.len() == 0 {
                    push_text(&mut errors, "Union comprehension has no sub-spaces".to_owned());
                }
                let ghost head = chars::texts(errors@);
                let ghost all = subspace_views(subspaces@);
                let mut i: usize = 0;
                assert(all.take(0) =~= Seq::<Seq<ClauseV>>::empty());
                assert(head + subspace_errors(all.take(0)) =~= head);
                while i < subspaces.len()
                    invariant
                        i <= subspaces@.len(),
                        all == subspace_views(subspaces@),
                        chars::texts(errors@) == head + subspace_errors(all.take(i as int)),
                    decreases subspaces.len() - i,
                {
                    assert(all.take(i + 1).drop_last() =~= all.take(i as int));
                    assert(all.take(i + 1).last() == subspaces@[i as int]@);
                    if subspaces[i].is_empty() {
                        let mut text: String = "Union sub-space #".to_owned();
                        text.append(chars::usize_text(i).as_str());
                        text.append(" has no clauses");
                        let ghost tv = text@;
                        push_text(&mut errors, text);
                        assert(chars::texts(errors@) =~= head + subspace_errors(
                            all.take(i as int),
                        ).push(tv));
                    }
                    i = i + 1;
                }
                assert(all.take(i as int) =~= all);
                assert(head =~= (if subspaces@.len() == 0 {
                    seq!["Union comprehension has no sub-spaces"@]
                } else {
                    Seq::empty()
                }));
            },
        }
        assert(chars::texts(errors@) == mode_errors);
        match check_order_for_mode(&self.mode, &self.order) {
            Ok(_) => {
                assert(mode_errors + Seq::<Seq<char>>::empty() =~= mode_errors);
            },
            Err(e) => {
                let ghost ev = e@;
                push_text(&mut errors, e);
                assert(mode_errors.push(ev) =~= mode_errors + seq![ev]);
            },
        }
        assert(chars::texts(errors@) == errors_of(self@));
        assert(chars::texts(errors@).len() == errors@.len());
        if errors.len() == 0 {
            Ok(())
        } else {
            Err(errors)
        }
    }

    /// The text of the comprehension.
    pub fn to_string(&self) -> (r: String)
        requires
            all_writable(flat(self@.mode)),
        ensures
            r@ == written_text(self@),
    {
        let mut out: String = match &self.mode {
            ComprehensionMode::Cartesian(clauses) => join_clauses(clauses),
            ComprehensionMode::Union(subspaces) => {
                let ghost all = subspace_views(subspaces@);
                let mut parts: Vec<String> = Vec::new();
                let mut i: usize = 0;
                while i < subspaces.len()
                    invariant
                        i <= subspaces@.len(),
                        all == subspace_views(subspaces@),
                        all_writable(flat_subspaces(all)),
                        parts@.len() == i,
                        forall|k: int|
                            0 <= k < i ==> (#[trigger] parts@[k])@ == chars::joined(
                                clause_texts(all[k]),
                                ", "@,
                            ),
                    decreases subspaces.len() - i,
                {
                    proof {
                        lemma_flat_writable(all, i as int);
                        assert(all[i as int] == subspaces@[i as int]@);
                    }
                    parts.push(join_clauses(&subspaces[i].clauses));
                    i = i + 1;
                }
                assert(chars::texts(parts@) =~= all.map_values(
                    |s: Seq<ClauseV>| chars::joined(clause_texts(s), ", "@),
                ));
                chars::join(&parts, " | ")
            },
        };
        let ghost head = out@;
        if let Some(predicate) = &self.filter {
            out.append(" where ");
            out.append(predicate.as_str());
        }
        let ghost mid = out@;
        if let Some(order) = &self.order {
            out.append(" order ");
            out.append(format_order(order).as_str());
        }
        proof {
            assert(mid =~= head + (match self@.filter {
                Some(p) => " where "@ + p,
                None => Seq::empty(),
            }));
            assert(out@ =~= mid + (match self@.order {
                Some(o) => " order "@ + order_text(o),
                None => Seq::empty(),
            }));
        }
        out
    }
}

/// What holds of every clause holds of those of a sub-space.
pub proof fn lemma_flat_writable(s: Seq<Seq<ClauseV>>, k: int)
    requires
        all_writable(flat_subspaces(s)),
        0 <= k < s.len(),
    ensures
        all_writable(s[k]),
    decreases s.len(),
{
    let front = flat_subspaces(s.drop_last());
    let whole = flat_subspaces(s);
    if k == s.len() - 1 {
        assert forall|i: int| 0 <= i < s[k].len() implies writable(#[trigger] s[k][i]) by {
            assert(whole[front.len() + i] == s[k][i]);
        }
    } else {
        assert forall|i: int| 0 <= i < front.len() implies writable(#[trigger] front[i]) by {
            assert(whole[i] == front[i]);
        }
        lemma_flat_writable(s.drop_last(), k);
    }
}

/// The contents of a run of clauses.
pub open spec fn ref_views(s: Seq<&Clause>) -> Seq<ClauseV> {
    Seq::new(s.len(), |i: int| s[i]@)
}

/// Add every clause at the end.
fn add_clauses<'a>(out: &mut Vec<&'a Clause>, clauses: &'a Vec<Clause>)
    ensures
        ref_views(final(out)@) == ref_views(old(out)@) + clause_views(clauses@),
{
    let ghost all = clause_views(clauses@);
    let mut i: usize = 0;
    assert(ref_views(out@) =~= ref_views(old(out)@) + all.take(0));
    while i < clauses.len()
        invariant
            i <= clauses@.len(),
            all == clause_views(clauses@),
            ref_views(out@) == ref_views(old(out)@) + all.take(i as int),
        decreases clauses.len() - i,
    {
        let ghost before = out@;
        out.push(&clauses[i]);
        i = i + 1;
        assert(ref_views(out@) =~= ref_views(before).push(all[i - 1]));
        assert(ref_views(out@) =~= ref_views(old(out)@) + all.take(i as int));
    }
    assert(all.take(i as int) =~= all);
}

/// Add the names of a clause that are not there.
fn add_names<'a>(out: &mut Vec<&'a str>, vars: &'a Vec<String>, before: Ghost<Seq<Seq<char>>>)
    requires
        chars::slices(old(out)@) == firsts(before@),
    ensures
        chars::slices(final(out)@) == firsts(before@ + chars::texts(vars@)),
{
    let ghost all = chars::texts(vars@);
    let mut j: usize = 0;
    assert(before@ + all.take(0) =~= before@);
    while j < vars.len()
        invariant
            j <= vars@.len(),
            all == chars::texts(vars@),
            chars::slices(out@) == firsts(before@ + all.take(j as int)),
        decreases vars.len() - j,
    {
        let ghost had = out@;
        let ghost run = before@ + all.take(j + 1);
        assert(run.drop_last() =~= before@ + all.take(j as int));
        assert(run.last() == vars@[j as int]@);
        if !chars::among(out, vars[j].as_str()) {
            out.push(vars[j].as_str());
            assert(chars::slices(out@) =~= chars::slices(had).push(vars@[j as int]@));
        }
        j = j + 1;
    }
    assert(all.take(j as int) =~= all);
}

/// The names of `clauses`, each once, in the order of their first
/// occurrence.
fn first_names<'a>(clauses: &Vec<&'a Clause>) -> (r: Vec<&'a str>)
    ensures
        chars::slices(r@) == firsts(names_of(ref_views(clauses@))),
{
    let ghost all = ref_views(clauses@);
    let mut out: Vec<&str> = Vec::new();
    let mut i: usize = 0;
    assert(all.take(0) =~= Seq::<ClauseV>::empty());
    assert(chars::slices(out@) =~= Seq::<Seq<char>>::empty());
    while i < clauses.len()
        invariant
            i <= clauses@.len(),
            all == ref_views(clauses@),
            chars::slices(out@) == firsts(names_of(all.take(i as int))),
        decreases clauses.len() - i,
    {
        assert(all.take(i + 1).drop_last() =~= all.take(i as int));
        assert(all.take(i + 1).last() == clauses@[i as int]@);
        let c: &'a Clause = clauses[i];
        add_names(&mut out, &c.vars, Ghost(names_of(all.take(i as int))));
        i = i + 1;
    }
    assert(all.take(i as int) =~= all);
    out
}

/// Add a message for each name of a clause that stood before.
fn add_name_repeats<'a>(
    errors: &mut Vec<String>,
    seen: &mut Vec<&'a str>,
    vars: &'a Vec<String>,
    before: Ghost<Seq<Seq<char>>>,
    head: Ghost<Seq<Seq<char>>>,
)
    requires
        chars::slices(old(seen)@) == firsts(before@),
        chars::texts(old(errors)@) == head@ + repeat_errors(before@),
    ensures
        chars::slices(final(seen)@) == firsts(before@ + chars::texts(vars@)),
        chars::texts(final(errors)@) == head@ + repeat_errors(before@ + chars::texts(vars@)),
{
    let ghost all = chars::texts(vars@);
    let mut j: usize = 0;
    assert(before@ + all.take(0) =~= before@);
    while j < vars.len()
        invariant
            j <= vars@.len(),
            all == chars::texts(vars@),
            chars::slices(seen@) == firsts(before@ + all.take(j as int)),
            chars::texts(errors@) == head@ + repeat_errors(before@ + all.take(j as int)),
        decreases vars.len() - j,
    {
        let ghost had = seen@;
        let ghost run = before@ + all.take(j + 1);
        assert(run.drop_last() =~= before@ + all.take(j as int));
        assert(run.last() == vars@[j as int]@);
        if chars::among(seen, vars[j].as_str()) {
            push_text(errors, repeat_message(vars[j].as_str()));
            assert(chars::texts(errors@) =~= head@ + repeat_errors(run));
        } else {
            seen.push(vars[j].as_str());
            assert(chars::slices(seen@) =~= chars::slices(had).push(vars@[j as int]@));
        }
        j = j + 1;
    }
    assert(all.take(j as int) =~= all);
}

/// Add a message for each name that stood before.
fn add_repeats<'a>(errors: &mut Vec<String>, clauses: &Vec<&'a Clause>)
    ensures
        chars::texts(final(errors)@) == chars::texts(old(errors)@) + repeat_errors(
            names_of(ref_views(clauses@)),
        ),
{
    let ghost head = chars::texts(errors@);
    let ghost all = ref_views(clauses@);
    let mut seen: Vec<&str> = Vec::new();
    let mut i: usize = 0;
    assert(all.take(0) =~= Seq::<ClauseV>::empty());
    assert(chars::slices(seen@) =~= Seq::<Seq<char>>::empty());
    assert(head + Seq::<Seq<char>>::empty() =~= head);
    while i < clauses.len()
        invariant
            i <= clauses@.len(),
            all == ref_views(clauses@),
            chars::slices(seen@) == firsts(names_of(all.take(i as int))),
            chars::texts(errors@) == head + repeat_errors(names_of(all.take(i as int))),
        decreases clauses.len() - i,
    {
        assert(all.take(i + 1).drop_last() =~= all.take(i as int));
        assert(all.take(i + 1).last() == clauses@[i as int]@);
        let c: &'a Clause = clauses[i];
        add_name_repeats(
            errors,
            &mut seen,
            &c.vars,
            Ghost(names_of(all.take(i as int))),
            Ghost(head),
        );
        i = i + 1;
    }
    assert(all.take(i as int) =~= all);
}

// ---------------------------------------------------------------------
// Laws
// ---------------------------------------------------------------------

/// The first occurrences are all different, and are what occurs.
pub proof fn law_firsts(s: Seq<Seq<char>>)
    ensures
        firsts(s).no_duplicates(),
        forall|x: Seq<char>| firsts(s).contains(x) <==> s.contains(x),
    decreases s.len(),
{
    if s.len() > 0 {
        let front = s.drop_last();
        law_firsts(front);
        let f = firsts(front);
        assert forall|x: Seq<char>| firsts(s).contains(x) <==> s.contains(x) by {
            if s.contains(x) {
                let i = choose|i: int| 0 <= i < s.len() && s[i] == x;
                if i < s.len() - 1 {
                    assert(front[i] == x);
                    assert(front.contains(x));
                    assert(f.contains(x));
                    let j = choose|j: int| 0 <= j < f.len() && f[j] == x;
                    if !f.contains(s.last()) {
                        assert(f.push(s.last())[j] == x);
                    }
                } else if !f.contains(s.last()) {
                    assert(f.push(s.last())[f.len() as int] == x);
                }
            }
            if firsts(s).contains(x) {
                if f.contains(x) {
                    assert(front.contains(x));
                    let i = choose|i: int| 0 <= i < front.len() && front[i] == x;
                    assert(s[i] == x);
                } else {
                    let j = choose|j: int| 0 <= j < firsts(s).len() && firsts(s)[j] == x;
                    if j < f.len() {
                        assert(f[j] == x);
                    }
                    assert(s[s.len() - 1] == x);
                }
            }
        }
    }
}

proof fn lemma_no_repeats(s: Seq<Seq<char>>)
    ensures
        repeat_errors(s).len() == 0 <==> s.no_duplicates(),
    decreases s.len(),
{
    if s.len() > 0 {
        let front = s.drop_last();
        lemma_no_repeats(front);
        law_firsts(front);
        if front.contains(s.last()) {
            let i = choose|i: int| 0 <= i < front.len() && front[i] == s.last();
            assert(s[i] == s[s.len() - 1]);
            assert(!s.no_duplicates());
        } else if front.no_duplicates() {
            assert forall|a: int, b: int|
                0 <= a < s.len() && 0 <= b < s.len() && a != b implies s[a] != s[b] by {
                if a == s.len() - 1 {
                    assert(front[b] == s[b]);
                    assert(front.contains(s[b]));
                } else if b == s.len() - 1 {
                    assert(front[a] == s[a]);
                    assert(front.contains(s[a]));
                } else {
                    assert(front[a] == s[a] && front[b] == s[b]);
                }
            }
        } else {
            let (a, b) = choose|a: int, b: int|
                0 <= a < front.len() && 0 <= b < front.len() && a != b && front[a] == front[b];
            assert(s[a] == front[a] && s[b] == front[b]);
        }
    }
}

proof fn lemma_no_empty_subspace(s: Seq<Seq<ClauseV>>)
    ensures
        subspace_errors(s).len() == 0 <==> forall|i: int|
            0 <= i < s.len() ==> (#[trigger] s[i]).len() > 0,
    decreases s.len(),
{
    if s.len() > 0 {
        let front = s.drop_last();
        lemma_no_empty_subspace(front);
        if subspace_errors(s).len() == 0 {
            assert forall|i: int| 0 <= i < s.len() implies (#[trigger] s[i]).len() > 0 by {
                if i < s.len() - 1 {
                    assert(front[i] == s[i]);
                }
            }
        } else if s.last().len() > 0 {
            let i = choose|i: int| 0 <= i < front.len() && !((#[trigger] front[i]).len() > 0);
            assert(s[i] == front[i]);
        } else {
            assert(s[s.len() - 1].len() == 0);
        }
    }
}

/// A comprehension is sound if and only if it has clauses (a union:
/// sub-spaces, and each has clauses), a product repeats no name, and a
/// union is not ordered by an order that needs a single lattice.
pub proof fn law_valid(c: WrittenV)
    ensures
        errors_of(c).len() == 0 <==> {
            &&& match c.mode {
                ModeV::Cartesian(clauses) => clauses.len() > 0 && names_of(
                    clauses,
                ).no_duplicates(),
                ModeV::Union(subspaces) => subspaces.len() > 0 && forall|i: int|
                    0 <= i < subspaces.len() ==> (#[trigger] subspaces[i]).len() > 0,
            }
            &&& c.mode is Union ==> (c.order matches Some(o) ==> lattice_order(o) is None)
        },
{
    match c.mode {
        ModeV::Cartesian(clauses) => {
            lemma_no_repeats(names_of(clauses));
        },
        ModeV::Union(subspaces) => {
            lemma_no_empty_subspace(subspaces);
        },
    }
}

} // verus!
