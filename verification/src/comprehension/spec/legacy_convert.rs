//! From comprehensions as they are written to the algebra.
use super::source_parser;
use super::source_parser::SourceParseError;
use crate::chars;
use crate::comprehension::ast;
use crate::comprehension::ast::{CompV, Comprehension};
use crate::comprehension::ast_legacy;
use crate::comprehension::ast_legacy::{
    Clause, ClauseSource, ClauseSourceV, ClauseV, ComprehensionMode, ModeV, OrderV, Subspace,
    TraversalOrder, WrittenV,
};
use crate::comprehension::strategy::{StrategyName, ZipMode};
use vstd::prelude::*;

verus! {

/// Why a written comprehension has no form in the algebra.
#[derive(Debug, PartialEq)]
pub enum ConvertError {
    /// The source of a clause is none.
    SourceParse { clause_var: String, source: String, cause: SourceParseError },
    /// There is no clause, or no sub-space.
    EmptyComprehension,
    /// A sub-space has no clause.
    EmptyUnionSubspace,
    /// A clause has not as many names as expressions.
    ParallelArityMismatch { vars: usize, exprs: usize },
    /// An order by a function of the user's is not supported.
    CustomOrderingRemoved { function: String },
}

/// The content of a conversion error.
#[verifier::ext_equal]
pub enum ConvertErrorV {
    SourceParse(Seq<char>, Seq<char>, SourceParseError),
    EmptyComprehension,
    EmptyUnionSubspace,
    ParallelArityMismatch(nat, nat),
    CustomOrderingRemoved(Seq<char>),
}

impl View for ConvertError {
    type V = ConvertErrorV;

    open spec fn view(&self) -> ConvertErrorV {
        match *self {
            ConvertError::SourceParse { clause_var, source, cause } => ConvertErrorV::SourceParse(
                clause_var@,
                source@,
                cause,
            ),
            ConvertError::EmptyComprehension => ConvertErrorV::EmptyComprehension,
            ConvertError::EmptyUnionSubspace => ConvertErrorV::EmptyUnionSubspace,
            ConvertError::ParallelArityMismatch { vars, exprs } =>
                ConvertErrorV::ParallelArityMismatch(vars as nat, exprs as nat),
            ConvertError::CustomOrderingRemoved { function } =>
                ConvertErrorV::CustomOrderingRemoved(function@),
        }
    }
}

/// The text of a conversion error.
pub open spec fn convert_error_text(e: ConvertErrorV) -> Seq<char> {
    match e {
        ConvertErrorV::SourceParse(var, source, _) => "clause "@ + chars::quoted_text(var) + " source "@
            + chars::quoted_text(source) + " failed to parse: empty source expression"@,
        ConvertErrorV::EmptyComprehension => "comprehension has no clauses"@,
        ConvertErrorV::EmptyUnionSubspace => "union has empty sub-space"@,
        ConvertErrorV::ParallelArityMismatch(vars, exprs) => "parallel clause vars="@
            + chars::decimal(vars) + " != exprs="@ + chars::decimal(exprs),
        ConvertErrorV::CustomOrderingRemoved(f) => "custom ordering "@ + chars::quoted_text(f)
            + " is no longer supported (spec §3.6)"@,
    }
}

impl ConvertError {
    /// The text of the error.
    pub fn to_string(&self) -> (r: String)
        ensures
            r@ == convert_error_text(self@),
    {
        match self {
            ConvertError::SourceParse { clause_var, source, .. } => {
                let mut out: String = "clause ".to_owned();
                out.append(chars::quoted(clause_var.as_str()).as_str());
                out.append(" source ");
                out.append(chars::quoted(source.as_str()).as_str());
                out.append(" failed to parse: empty source expression");
                out
            },
            ConvertError::EmptyComprehension => "comprehension has no clauses".to_owned(),
            ConvertError::EmptyUnionSubspace => "union has empty sub-space".to_owned(),
            ConvertError::ParallelArityMismatch { vars, exprs } => {
                let mut out: String = "parallel clause vars=".to_owned();
                out.append(chars::usize_text(*vars).as_str());
                out.append(" != exprs=");
                out.append(chars::usize_text(*exprs).as_str());
                out
            },
            ConvertError::CustomOrderingRemoved { function } => {
                let mut out: String = "custom ordering ".to_owned();
                out.append(chars::quoted(function.as_str()).as_str());
                out.append(" is no longer supported (spec §3.6)");
                out
            },
        }
    }
}

// ---------------------------------------------------------------------
// The conversion
// ---------------------------------------------------------------------

/// A name bound to the source that a text stands for.
pub open spec fn bound_clause(var: Seq<char>, text: Seq<char>) -> Result<CompV, ConvertErrorV> {
    match source_parser::source_of(text) {
        Some(s) => Ok(CompV::Clause(var, s)),
        None => Err(ConvertErrorV::SourceParse(var, text, SourceParseError::Empty)),
    }
}

/// Names bound to the sources that as many texts stand for; the error of
/// the first text that stands for none.
pub open spec fn bound_clauses(vars: Seq<Seq<char>>, texts: Seq<Seq<char>>) -> Result<
    Seq<CompV>,
    ConvertErrorV,
>
    decreases vars.len(),
{
    if vars.len() == 0 {
        Ok(Seq::empty())
    } else {
        match bound_clauses(vars.drop_last(), texts.drop_last()) {
            Err(e) => Err(e),
            Ok(front) => match bound_clause(vars.last(), texts.last()) {
                Err(e) => Err(e),
                Ok(c) => Ok(front.push(c)),
            },
        }
    }
}

/// The mode of a zip.
pub open spec fn zip_mode(m: ast_legacy::ZipMode) -> ZipMode {
    match m {
        ast_legacy::ZipMode::Strict => ZipMode::Strict,
        ast_legacy::ZipMode::Truncate => ZipMode::Truncate,
        ast_legacy::ZipMode::Cycle => ZipMode::Cycle,
    }
}

/// A clause in the algebra: one name is a clause, several are a zip.
pub open spec fn clause_form(c: ClauseV) -> Result<CompV, ConvertErrorV> {
    match c.source {
        ClauseSourceV::Single(text) => bound_clause(c.vars[0], text),
        ClauseSourceV::Parallel(mode, texts) => if c.vars.len() != texts.len() {
            Err(ConvertErrorV::ParallelArityMismatch(c.vars.len(), texts.len()))
        } else {
            match bound_clauses(c.vars, texts) {
                Err(e) => Err(e),
                Ok(children) => Ok(CompV::Zip(children, zip_mode(mode))),
            }
        },
    }
}

/// The forms of a run of clauses; the error of the first that has none.
pub open spec fn clause_forms(s: Seq<ClauseV>) -> Result<Seq<CompV>, ConvertErrorV>
    decreases s.len(),
{
    if s.len() == 0 {
        Ok(Seq::empty())
    } else {
        match clause_forms(s.drop_last()) {
            Err(e) => Err(e),
            Ok(front) => match clause_form(s.last()) {
                Err(e) => Err(e),
                Ok(c) => Ok(front.push(c)),
            },
        }
    }
}

/// A product of clauses; a single clause stands for itself.
pub open spec fn product_form(s: Seq<ClauseV>) -> Result<CompV, ConvertErrorV> {
    if s.len() == 0 {
        Err(ConvertErrorV::EmptyComprehension)
    } else {
        match clause_forms(s) {
            Err(e) => Err(e),
            Ok(children) => if children.len() == 1 {
                Ok(children[0])
            } else {
                Ok(CompV::Cartesian(children))
            },
        }
    }
}

/// The forms of a run of sub-spaces; the error of the first that has none.
pub open spec fn subspace_forms(s: Seq<Seq<ClauseV>>) -> Result<Seq<CompV>, ConvertErrorV>
    decreases s.len(),
{
    if s.len() == 0 {
        Ok(Seq::empty())
    } else {
        match subspace_forms(s.drop_last()) {
            Err(e) => Err(e),
            Ok(front) => if s.last().len() == 0 {
                Err(ConvertErrorV::EmptyUnionSubspace)
            } else {
                match product_form(s.last()) {
                    Err(e) => Err(e),
                    Ok(c) => Ok(front.push(c)),
                }
            },
        }
    }
}

/// A union of sub-spaces; a single one stands for itself.
pub open spec fn union_form(s: Seq<Seq<ClauseV>>) -> Result<CompV, ConvertErrorV> {
    if s.len() == 0 {
        Err(ConvertErrorV::EmptyComprehension)
    } else {
        match subspace_forms(s) {
            Err(e) => Err(e),
            Ok(children) => if children.len() == 1 {
                Ok(children[0])
            } else {
                Ok(CompV::Union(children))
            },
        }
    }
}

/// A count as 64 bits.
pub open spec fn count_of(n: Option<usize>) -> Option<u64> {
    match n {
        Some(k) => Some(k as u64),
        None => None,
    }
}

/// The strategy and the cut of an order.
pub open spec fn order_form(o: OrderV) -> Result<(StrategyName, Option<u64>), ConvertErrorV> {
    match o {
        OrderV::Lex(n) => Ok((StrategyName::Lex, count_of(n))),
        OrderV::ReverseLex(n) => Ok((StrategyName::ReverseLex, count_of(n))),
        OrderV::Diagonal(n) => Ok((StrategyName::Diagonal, count_of(n))),
        OrderV::Antidiagonal(n) => Ok((StrategyName::Antidiagonal, count_of(n))),
        OrderV::Extrema(n) => Ok((StrategyName::Extrema, count_of(n))),
        OrderV::Shells(_, n) => Ok((StrategyName::Shells, count_of(n))),
        OrderV::Halton(n) => Ok((StrategyName::Halton, count_of(n))),
        OrderV::Sobol(n) => Ok((StrategyName::Sobol, count_of(n))),
        OrderV::Lhs(n, _) => Ok((StrategyName::Lhs, count_of(n))),
        OrderV::Custom(f) => Err(ConvertErrorV::CustomOrderingRemoved(f)),
    }
}

/// A comprehension in the algebra: its clauses, filtered, then ordered.
pub open spec fn algebra_form(w: WrittenV) -> Result<CompV, ConvertErrorV> {
    let body = match w.mode {
        ModeV::Cartesian(clauses) => product_form(clauses),
        ModeV::Union(subspaces) => union_form(subspaces),
    };
    match body {
        Err(e) => Err(e),
        Ok(b) => {
            let filtered = match w.filter {
                Some(p) => CompV::Filter(Box::new(b), p),
                None => b,
            };
            match w.order {
                None => Ok(filtered),
                Some(o) => match order_form(o) {
                    Err(e) => Err(e),
                    Ok((strategy, truncation)) => Ok(
                        CompV::Order(Box::new(filtered), strategy, truncation),
                    ),
                },
            }
        },
    }
}

/// Whether a conversion came out as it should.
pub open spec fn came_out(
    r: Result<Comprehension, ConvertError>,
    want: Result<CompV, ConvertErrorV>,
) -> bool {
    match (r, want) {
        (Ok(c), Ok(w)) => ast::comp_view(c) == w,
        (Err(e), Err(w)) => e@ == w,
        _ => false,
    }
}

/// Whether a run of conversions came out as it should.
pub open spec fn all_came_out(
    r: Result<Vec<Comprehension>, ConvertError>,
    want: Result<Seq<CompV>, ConvertErrorV>,
) -> bool {
    match (r, want) {
        (Ok(v), Ok(w)) => ast::comp_views(v@) == w,
        (Err(e), Err(w)) => e@ == w,
        _ => false,
    }
}

fn convert_pair(var: &String, expr: &String) -> (r: Result<Comprehension, ConvertError>)
    ensures
        came_out(r, bound_clause(var@, expr@)),
{
    match source_parser::parse_source(expr.as_str()) {
        Ok(source) => Ok(Comprehension::clause(var.as_str(), source)),
        Err(cause) => Err(
            ConvertError::SourceParse { clause_var: var.clone(), source: expr.clone(), cause },
        ),
    }
}

proof fn lemma_bound_prefix(vars: Seq<Seq<char>>, texts: Seq<Seq<char>>, k: int)
    requires
        0 <= k <= vars.len(),
        vars.len() == texts.len(),
        bound_clauses(vars.take(k), texts.take(k)) is Err,
    ensures
        bound_clauses(vars, texts) == bound_clauses(vars.take(k), texts.take(k)),
    decreases vars.len(),
{
    if k == vars.len() {
        assert(vars.take(k) =~= vars);
        assert(texts.take(k) =~= texts);
    } else {
        assert(vars.drop_last().take(k) =~= vars.take(k));
        assert(texts.drop_last().take(k) =~= texts.take(k));
        lemma_bound_prefix(vars.drop_last(), texts.drop_last(), k);
    }
}

/// Add one comprehension to a run.
fn push_comp(out: &mut Vec<Comprehension>, c: Comprehension)
    ensures
        ast::comp_views(final(out)@) == ast::comp_views(old(out)@).push(ast::comp_view(c)),
{
    out.push(c);
    assert(out@.drop_last() =~= old(out)@);
}

fn convert_pairs(vars: &Vec<String>, exprs: &Vec<String>) -> (r: Result<
    Vec<Comprehension>,
    ConvertError,
>)
    requires
        vars@.len() == exprs@.len(),
    ensures
        all_came_out(r, bound_clauses(chars::texts(vars@), chars::texts(exprs@))),
{
    let ghost vs = chars::texts(vars@);
    let ghost es = chars::texts(exprs@);
    let mut out: Vec<Comprehension> = Vec::new();
    let mut i: usize = 0;
    assert(vs.take(0) =~= Seq::<Seq<char>>::empty());
    assert(ast::comp_views(out@) =~= Seq::<CompV>::empty());
    while i < vars.len()
        invariant
            i <= vars@.len(),
            vars@.len() == exprs@.len(),
            vs == chars::texts(vars@),
            es == chars::texts(exprs@),
            bound_clauses(vs.take(i as int), es.take(i as int)) == Ok::<Seq<CompV>, ConvertErrorV>(
                ast::comp_views(out@),
            ),
        decreases vars.len() - i,
    {
        proof {
            assert(vs.take(i + 1).drop_last() =~= vs.take(i as int));
            assert(es.take(i + 1).drop_last() =~= es.take(i as int));
            assert(vs.take(i + 1).last() == vars@[i as int]@);
            assert(es.take(i + 1).last() == exprs@[i as int]@);
        }
        match convert_pair(&vars[i], &exprs[i]) {
            Ok(c) => {
                push_comp(&mut out, c);
            },
            Err(e) => {
                proof {
                    lemma_bound_prefix(vs, es, i + 1);
                }
                return Err(e);
            },
        }
        i = i + 1;
    }
    assert(vs.take(i as int) =~= vs);
    assert(es.take(i as int) =~= es);
    Ok(out)
}

fn convert_zip_mode(mode: ast_legacy::ZipMode) -> (r: ZipMode)
    ensures
        r == zip_mode(mode),
{
    match mode {
        ast_legacy::ZipMode::Strict => ZipMode::Strict,
        ast_legacy::ZipMode::Truncate => ZipMode::Truncate,
        ast_legacy::ZipMode::Cycle => ZipMode::Cycle,
    }
}

fn convert_clause(clause: &Clause) -> (r: Result<Comprehension, ConvertError>)
    requires
        ast_legacy::writable(clause@),
    ensures
        came_out(r, clause_form(clause@)),
{
    match &clause.source {
        ClauseSource::Single(text) => convert_pair(&clause.vars[0], text),
        ClauseSource::Parallel { mode, exprs } => {
            if clause.vars.len() != exprs.len() {
                return Err(
                    ConvertError::ParallelArityMismatch {
                        vars: clause.vars.len(),
                        exprs: exprs.len(),
                    },
                );
            }
            match convert_pairs(&clause.vars, exprs) {
                Ok(children) => Ok(Comprehension::zip(children, convert_zip_mode(*mode))),
                Err(e) => Err(e),
            }
        },
    }
}

proof fn lemma_forms_prefix(s: Seq<ClauseV>, k: int)
    requires
        0 <= k <= s.len(),
        clause_forms(s.take(k)) is Err,
    ensures
        clause_forms(s) == clause_forms(s.take(k)),
    decreases s.len(),
{
    if k == s.len() {
        assert(s.take(k) =~= s);
    } else {
        assert(s.drop_last().take(k) =~= s.take(k));
        lemma_forms_prefix(s.drop_last(), k);
    }
}

proof fn lemma_forms_len(s: Seq<ClauseV>)
    ensures
        clause_forms(s) matches Ok(v) ==> v.len() == s.len(),
    decreases s.len(),
{
    if s.len() > 0 {
        lemma_forms_len(s.drop_last());
    }
}

fn convert_cartesian(clauses: &Vec<Clause>) -> (r: Result<Comprehension, ConvertError>)
    requires
        ast_legacy::all_writable(ast_legacy::clause_views(clauses@)),
    ensures
        came_out(r, product_form(ast_legacy::clause_views(clauses@))),
{
    let ghost all = ast_legacy::clause_views(clauses@);
    if clauses.len() == 0 {
        return Err(ConvertError::EmptyComprehension);
    }
    let mut children: Vec<Comprehension> = Vec::new();
    let mut i: usize = 0;
    assert(all.take(0) =~= Seq::<ClauseV>::empty());
    assert(ast::comp_views(children@) =~= Seq::<CompV>::empty());
    while i < clauses.len()
        invariant
            i <= clauses@.len(),
            all == ast_legacy::clause_views(clauses@),
            ast_legacy::all_writable(all),
            clause_forms(all.take(i as int)) == Ok::<Seq<CompV>, ConvertErrorV>(
                ast::comp_views(children@),
            ),
            clauses@.len() > 0,
        decreases clauses.len() - i,
    {
        proof {
            assert(all.take(i + 1).drop_last() =~= all.take(i as int));
            assert(all.take(i + 1).last() == all[i as int]);
            assert(all[i as int] == clauses@[i as int]@);
        }
        match convert_clause(&clauses[i]) {
            Ok(c) => {
                push_comp(&mut children, c);
            },
            Err(e) => {
                proof {
                    lemma_forms_prefix(all, i + 1);
                }
                return Err(e);
            },
        }
        i = i + 1;
    }
    proof {
        assert(all.take(i as int) =~= all);
        lemma_forms_len(all);
        ast::lemma_comp_views(children@);
    }
    if children.len() == 1 {
        let ghost only = children@[0];
        assert(ast::comp_views(children@)[0] == ast::comp_view(only));
        let c: Comprehension = children.pop().unwrap();
        Ok(c)
    } else {
        Ok(Comprehension::cartesian(children))
    }
}

proof fn lemma_subspaces_prefix(s: Seq<Seq<ClauseV>>, k: int)
    requires
        0 <= k <= s.len(),
        subspace_forms(s.take(k)) is Err,
    ensures
        subspace_forms(s) == subspace_forms(s.take(k)),
    decreases s.len(),
{
    if k == s.len() {
        assert(s.take(k) =~= s);
    } else {
        assert(s.drop_last().take(k) =~= s.take(k));
        lemma_subspaces_prefix(s.drop_last(), k);
    }
}

proof fn lemma_subspaces_len(s: Seq<Seq<ClauseV>>)
    ensures
        subspace_forms(s) matches Ok(v) ==> v.len() == s.len(),
    decreases s.len(),
{
    if s.len() > 0 {
        lemma_subspaces_len(s.drop_last());
    }
}

fn convert_union(subspaces: &Vec<Subspace>) -> (r: Result<Comprehension, ConvertError>)
    requires
        ast_legacy::all_writable(
            ast_legacy::flat_subspaces(ast_legacy::subspace_views(subspaces@)),
        ),
    ensures
        came_out(r, union_form(ast_legacy::subspace_views(subspaces@))),
{
    let ghost all = ast_legacy::subspace_views(subspaces@);
    if subspaces.len() == 0 {
        return Err(ConvertError::EmptyComprehension);
    }
    let mut children: Vec<Comprehension> = Vec::new();
    let mut i: usize = 0;
    assert(all.take(0) =~= Seq::<Seq<ClauseV>>::empty());
    assert(ast::comp_views(children@) =~= Seq::<CompV>::empty());
    while i < subspaces.len()
        invariant
            i <= subspaces@.len(),
            subspaces@.len() > 0,
            all == ast_legacy::subspace_views(subspaces@),
            ast_legacy::all_writable(ast_legacy::flat_subspaces(all)),
            subspace_forms(all.take(i as int)) == Ok::<Seq<CompV>, ConvertErrorV>(
                ast::comp_views(children@),
            ),
        decreases subspaces.len() - i,
    {
        proof {
            assert(all.take(i + 1).drop_last() =~= all.take(i as int));
            assert(all.take(i + 1).last() == all[i as int]);
            assert(all[i as int] == subspaces@[i as int]@);
            ast_legacy::lemma_flat_writable(all, i as int);
        }
        if subspaces[i].is_empty() {
            proof {
                lemma_subspaces_prefix(all, i + 1);
            }
            return Err(ConvertError::EmptyUnionSubspace);
        }
        match convert_cartesian(&subspaces[i].clauses) {
            Ok(c) => {
                push_comp(&mut children, c);
            },
            Err(e) => {
                proof {
                    lemma_subspaces_prefix(all, i + 1);
                }
                return Err(e);
            },
        }
        i = i + 1;
    }
    proof {
        assert(all.take(i as int) =~= all);
        lemma_subspaces_len(all);
        ast::lemma_comp_views(children@);
    }
    if children.len() == 1 {
        let ghost only = children@[0];
        assert(ast::comp_views(children@)[0] == ast::comp_view(only));
        let c: Comprehension = children.pop().unwrap();
        Ok(c)
    } else {
        Ok(Comprehension::union(children))
    }
}

fn wide(n: Option<usize>) -> (r: Option<u64>)
    ensures
        r == count_of(n),
{
    match n {
        Some(k) => Some(k as u64),
        None => None,
    }
}

fn convert_order(order: &TraversalOrder) -> (r: Result<
    (StrategyName, Option<u64>),
    ConvertError,
>)
    ensures
        match (r, order_form(order@)) {
            (Ok(p), Ok(w)) => p == w,
            (Err(e), Err(w)) => e@ == w,
            _ => false,
        },
{
    match order {
        TraversalOrder::Lex { count } => Ok((StrategyName::Lex, wide(*count))),
        TraversalOrder::ReverseLex { count } => Ok((StrategyName::ReverseLex, wide(*count))),
        TraversalOrder::Diagonal { count } => Ok((StrategyName::Diagonal, wide(*count))),
        TraversalOrder::Antidiagonal { count } => Ok((StrategyName::Antidiagonal, wide(*count))),
        TraversalOrder::Extrema { strata } => Ok((StrategyName::Extrema, wide(*strata))),
        TraversalOrder::Shells { depth, .. } => Ok((StrategyName::Shells, wide(*depth))),
        TraversalOrder::Halton { count } => Ok((StrategyName::Halton, wide(*count))),
        TraversalOrder::Sobol { count } => Ok((StrategyName::Sobol, wide(*count))),
        TraversalOrder::Lhs { count, .. } => Ok((StrategyName::Lhs, wide(*count))),
        TraversalOrder::Custom { function } => Err(
            ConvertError::CustomOrderingRemoved { function: function.clone() },
        ),
    }
}

/// `legacy` in the algebra.
pub fn legacy_to_algebra(legacy: &ast_legacy::Comprehension) -> (r: Result<
    Comprehension,
    ConvertError,
>)
    requires
        ast_legacy::all_writable(ast_legacy::flat(legacy@.mode)),
    ensures
        came_out(r, algebra_form(legacy@)),
{
    let body: Comprehension = match &legacy.mode {
        ComprehensionMode::Cartesian(clauses) => match convert_cartesian(clauses) {
            Ok(b) => b,
            Err(e) => return Err(e),
        },
        ComprehensionMode::Union(subspaces) => match convert_union(subspaces) {
            Ok(b) => b,
            Err(e) => return Err(e),
        },
    };
    let filtered: Comprehension = match &legacy.filter {
        Some(p) => Comprehension::filter(body, p.as_str()),
        None => body,
    };
    match &legacy.order {
        None => Ok(filtered),
        Some(order) => match convert_order(order) {
            Ok((strategy, truncation)) => Ok(
                Comprehension::order(filtered, strategy, truncation),
            ),
            Err(e) => Err(e),
        },
    }
}

// ---------------------------------------------------------------------
// Laws
// ---------------------------------------------------------------------

/// A comprehension converts if and only if it has clauses in every
/// sub-space, every clause has a form, and its order is none of the user's.
pub proof fn law_converts(w: WrittenV)
    ensures
        algebra_form(w) is Ok <==> {
            &&& match w.mode {
                ModeV::Cartesian(clauses) => clauses.len() > 0 && clause_forms(clauses) is Ok,
                ModeV::Union(subspaces) => subspaces.len() > 0 && forall|i: int|
                    0 <= i < subspaces.len() ==> (#[trigger] subspaces[i]).len() > 0
                        && clause_forms(subspaces[i]) is Ok,
            }
            &&& !(w.order matches Some(o) && o is Custom)
        },
{
    if let ModeV::Union(subspaces) = w.mode {
        lemma_subspaces_convert(subspaces);
    }
}

proof fn lemma_subspaces_convert(s: Seq<Seq<ClauseV>>)
    ensures
        subspace_forms(s) is Ok <==> forall|i: int|
            0 <= i < s.len() ==> (#[trigger] s[i]).len() > 0 && clause_forms(s[i]) is Ok,
    decreases s.len(),
{
    if s.len() > 0 {
        let front = s.drop_last();
        lemma_subspaces_convert(front);
        if subspace_forms(s) is Ok {
            assert forall|i: int| 0 <= i < s.len() implies (#[trigger] s[i]).len() > 0
                && clause_forms(s[i]) is Ok by {
                if i < s.len() - 1 {
                    assert(front[i] == s[i]);
                }
            }
        } else if forall|i: int|
            0 <= i < s.len() ==> (#[trigger] s[i]).len() > 0 && clause_forms(s[i]) is Ok {
            assert forall|i: int| 0 <= i < front.len() implies (#[trigger] front[i]).len() > 0
                && clause_forms(front[i]) is Ok by {
                assert(front[i] == s[i]);
            }
            assert(s[s.len() - 1].len() > 0);
        }
    }
}

} // verus!
