//! The document form of a comprehension: its clauses under `for`, a
//! condition under `where`, an order under `order`.
use super::legacy_convert;
use super::legacy_convert::{ConvertError, ConvertErrorV};
use super::parse;
use crate::chars;
use crate::comprehension::ast;
use crate::comprehension::ast::{CompV, Comprehension};
use crate::comprehension::ast_legacy;
use crate::comprehension::ast_legacy::{
    Clause, ClauseV, ComprehensionMode, ModeV, OrderV, Subspace, TraversalOrder, WrittenV,
};
use crate::value;
use crate::value::{Json, JsonV};
use vstd::prelude::*;

verus! {

/// Clauses in a document.
#[derive(Debug, PartialEq)]
pub enum ForSpec {
    /// One text.
    Text(String),
    /// A text for each clause.
    List(Vec<String>),
    /// A list of texts for each sub-space.
    Groups(Vec<Vec<String>>),
}

/// A comprehension in a document.
#[derive(Debug, PartialEq)]
pub struct ComprehensionSpec {
    pub clauses: ForSpec,
    pub filter: Option<String>,
    pub order: Option<String>,
}

/// The content of clauses in a document.
#[verifier::ext_equal]
pub enum ForV {
    Text(Seq<char>),
    List(Seq<Seq<char>>),
    Groups(Seq<Seq<Seq<char>>>),
}

/// The content of a comprehension in a document.
#[verifier::ext_equal]
pub struct SpecV {
    pub clauses: ForV,
    pub filter: Option<Seq<char>>,
    pub order: Option<Seq<char>>,
}

/// The contents of a run of lists.
pub open spec fn group_texts(s: Seq<Vec<String>>) -> Seq<Seq<Seq<char>>> {
    Seq::new(s.len(), |i: int| chars::texts(s[i]@))
}

/// The content of a text that may not be there.
pub open spec fn opt_text(s: Option<String>) -> Option<Seq<char>> {
    match s {
        Some(t) => Some(t@),
        None => None,
    }
}

impl View for ComprehensionSpec {
    type V = SpecV;

    open spec fn view(&self) -> SpecV {
        SpecV {
            clauses: match self.clauses {
                ForSpec::Text(t) => ForV::Text(t@),
                ForSpec::List(l) => ForV::List(chars::texts(l@)),
                ForSpec::Groups(g) => ForV::Groups(group_texts(g@)),
            },
            filter: opt_text(self.filter),
            order: opt_text(self.order),
        }
    }
}

// ---------------------------------------------------------------------
// Reading the document
// ---------------------------------------------------------------------

/// The first member of an object by its name.
pub open spec fn member(s: Seq<(Seq<char>, JsonV)>, key: Seq<char>) -> Option<JsonV>
    decreases s.len(),
{
    if s.len() == 0 {
        None
    } else if s[0].0 == key {
        Some(s[0].1)
    } else {
        member(s.drop_first(), key)
    }
}

/// The texts of a run of documents, where each is one.
pub open spec fn all_texts(s: Seq<JsonV>) -> Option<Seq<Seq<char>>>
    decreases s.len(),
{
    if s.len() == 0 {
        Some(Seq::empty())
    } else {
        match (all_texts(s.drop_last()), s.last()) {
            (Some(front), JsonV::Text(t)) => Some(front.push(t)),
            _ => None,
        }
    }
}

/// The lists of texts of a run of documents, where each is one.
pub open spec fn all_lists(s: Seq<JsonV>) -> Option<Seq<Seq<Seq<char>>>>
    decreases s.len(),
{
    if s.len() == 0 {
        Some(Seq::empty())
    } else {
        match (all_lists(s.drop_last()), s.last()) {
            (Some(front), JsonV::Array(items)) => match all_texts(items) {
                Some(list) => Some(front.push(list)),
                None => None,
            },
            _ => None,
        }
    }
}

/// The clauses of a document.
pub open spec fn for_of(j: JsonV) -> Option<ForV> {
    match j {
        JsonV::Text(t) => Some(ForV::Text(t)),
        JsonV::Array(items) => match all_texts(items) {
            Some(list) => Some(ForV::List(list)),
            None => match all_lists(items) {
                Some(groups) => Some(ForV::Groups(groups)),
                None => None,
            },
        },
        _ => None,
    }
}

/// A text that may be absent or null; none where it is something else.
pub open spec fn optional_text(j: Option<JsonV>) -> Option<Option<Seq<char>>> {
    match j {
        None => Some(None),
        Some(JsonV::Null) => Some(None),
        Some(JsonV::Text(t)) => Some(Some(t)),
        _ => None,
    }
}

/// The comprehension of a document.
pub open spec fn spec_of(j: JsonV) -> Option<SpecV> {
    match j {
        JsonV::Object(members) => match (
            member(members, "for"@),
            optional_text(member(members, "where"@)),
            optional_text(member(members, "order"@)),
        ) {
            (Some(f), Some(filter), Some(order)) => match for_of(f) {
                Some(clauses) => Some(SpecV { clauses, filter, order }),
                None => None,
            },
            _ => None,
        },
        _ => None,
    }
}

/// The first member by its name.
fn find_member<'a>(members: &'a Vec<(String, Json)>, key: &str) -> (r: Option<&'a Json>)
    ensures
        match (r, member(value::json_members(members@), key@)) {
            (Some(j), Some(want)) => value::json_view(*j) == want,
            (None, None) => true,
            _ => false,
        },
{
    let ghost all = value::json_members(members@);
    let mut i: usize = 0;
    proof {
        value::lemma_json_members(members@);
        assert(all.skip(0) =~= all);
    }
    while i < members.len()
        invariant
            i <= members@.len(),
            all == value::json_members(members@),
            all.len() == members@.len(),
            forall|k: int|
                0 <= k < members@.len() ==> #[trigger] all[k] == (
                    members@[k].0@,
                    value::json_view(members@[k].1),
                ),
            member(all, key@) == member(all.skip(i as int), key@),
        decreases members.len() - i,
    {
        proof {
            assert(all.skip(i as int)[0] == all[i as int]);
            assert(all.skip(i as int).drop_first() =~= all.skip(i + 1));
        }
        if *members[i].0.as_str() == *key {
            return Some(&members[i].1);
        }
        i = i + 1;
    }
    assert(all.skip(i as int).len() == 0);
    None
}

proof fn lemma_texts_prefix(s: Seq<JsonV>, k: int)
    requires
        0 <= k <= s.len(),
        all_texts(s.take(k)) is None,
    ensures
        all_texts(s) is None,
    decreases s.len(),
{
    if k == s.len() {
        assert(s.take(k) =~= s);
    } else {
        assert(s.drop_last().take(k) =~= s.take(k));
        lemma_texts_prefix(s.drop_last(), k);
    }
}

/// The texts of `items`, where each is one.
fn read_texts(items: &Vec<Json>) -> (r: Option<Vec<String>>)
    ensures
        match (r, all_texts(value::json_items(items@))) {
            (Some(v), Some(want)) => chars::texts(v@) == want,
            (None, None) => true,
            _ => false,
        },
{
    let ghost all = value::json_items(items@);
    proof {
        value::lemma_json_items(items@);
        assert(all.take(0) =~= Seq::<JsonV>::empty());
    }
    let mut out: Vec<String> = Vec::new();
    let mut i: usize = 0;
    assert(chars::texts(out@) =~= Seq::<Seq<char>>::empty());
    while i < items.len()
        invariant
            i <= items@.len(),
            all == value::json_items(items@),
            all.len() == items@.len(),
            forall|k: int|
                0 <= k < items@.len() ==> #[trigger] all[k] == value::json_view(items@[k]),
            all_texts(all.take(i as int)) == Some(chars::texts(out@)),
        decreases items.len() - i,
    {
        proof {
            assert(all.take(i + 1).drop_last() =~= all.take(i as int));
            assert(all.take(i + 1).last() == all[i as int]);
        }
        match &items[i] {
            Json::Text(t) => {
                let ghost before = out@;
                out.push(t.clone());
                assert(chars::texts(out@) =~= chars::texts(before).push(t@));
            },
            _ => {
                proof {
                    lemma_texts_prefix(all, i + 1);
                }
                return None;
            },
        }
        i = i + 1;
    }
    assert(all.take(i as int) =~= all);
    Some(out)
}

proof fn lemma_lists_prefix(s: Seq<JsonV>, k: int)
    requires
        0 <= k <= s.len(),
        all_lists(s.take(k)) is None,
    ensures
        all_lists(s) is None,
    decreases s.len(),
{
    if k == s.len() {
        assert(s.take(k) =~= s);
    } else {
        assert(s.drop_last().take(k) =~= s.take(k));
        lemma_lists_prefix(s.drop_last(), k);
    }
}

/// The lists of texts of `items`, where each is one.
fn read_lists(items: &Vec<Json>) -> (r: Option<Vec<Vec<String>>>)
    ensures
        match (r, all_lists(value::json_items(items@))) {
            (Some(v), Some(want)) => group_texts(v@) == want,
            (None, None) => true,
            _ => false,
        },
{
    let ghost all = value::json_items(items@);
    proof {
        value::lemma_json_items(items@);
        assert(all.take(0) =~= Seq::<JsonV>::empty());
    }
    let mut out: Vec<Vec<String>> = Vec::new();
    let mut i: usize = 0;
    assert(group_texts(out@) =~= Seq::<Seq<Seq<char>>>::empty());
    while i < items.len()
        invariant
            i <= items@.len(),
            all == value::json_items(items@),
            all.len() == items@.len(),
            forall|k: int|
                0 <= k < items@.len() ==> #[trigger] all[k] == value::json_view(items@[k]),
            all_lists(all.take(i as int)) == Some(group_texts(out@)),
        decreases items.len() - i,
    {
        proof {
            assert(all.take(i + 1).drop_last() =~= all.take(i as int));
            assert(all.take(i + 1).last() == all[i as int]);
        }
        let list: Option<Vec<String>> = match &items[i] {
            Json::Array(inner) => read_texts(inner),
            _ => None,
        };
        match list {
            Some(l) => {
                let ghost before = out@;
                let ghost lv = chars::texts(l@);
                out.push(l);
                assert(group_texts(out@) =~= group_texts(before).push(lv));
            },
            None => {
                proof {
                    lemma_lists_prefix(all, i + 1);
                }
                return None;
            },
        }
        i = i + 1;
    }
    assert(all.take(i as int) =~= all);
    Some(out)
}

fn read_optional(j: Option<&Json>) -> (r: Option<Option<String>>)
    ensures
        match (r, optional_text(
            match j {
                Some(d) => Some(value::json_view(*d)),
                None => None,
            },
        )) {
            (Some(t), Some(want)) => opt_text(t) == want,
            (None, None) => true,
            _ => false,
        },
{
    match j {
        None => Some(None),
        Some(d) => match d {
            Json::Null => Some(None),
            Json::Text(t) => Some(Some(t.clone())),
            _ => None,
        },
    }
}

/// The comprehension of the document `j`.
pub fn from_document(j: &Json) -> (r: Option<ComprehensionSpec>)
    ensures
        match (r, spec_of(value::json_view(*j))) {
            (Some(s), Some(want)) => s@ == want,
            (None, None) => true,
            _ => false,
        },
{
    let members: &Vec<(String, Json)> = match j {
        Json::Object(members) => members,
        _ => return None,
    };
    let filter: Option<String> = match read_optional(find_member(members, "where")) {
        Some(t) => t,
        None => return None,
    };
    let order: Option<String> = match read_optional(find_member(members, "order")) {
        Some(t) => t,
        None => return None,
    };
    let clauses: ForSpec = match find_member(members, "for") {
        None => return None,
        Some(f) => match f {
            Json::Text(t) => ForSpec::Text(t.clone()),
            Json::Array(items) => match read_texts(items) {
                Some(list) => ForSpec::List(list),
                None => match read_lists(items) {
                    Some(groups) => ForSpec::Groups(groups),
                    None => return None,
                },
            },
            _ => return None,
        },
    };
    Some(ComprehensionSpec { clauses, filter, order })
}

// ---------------------------------------------------------------------
// To the algebra
// ---------------------------------------------------------------------

/// Why a document's comprehension has no form in the algebra.
#[derive(Debug, PartialEq)]
pub enum SpecConvertError {
    /// A text is no clause.
    Clauses(String),
    /// A text is no order.
    Order(String),
    /// The written comprehension has no form.
    Convert(ConvertError),
}

/// The content of such an error.
#[verifier::ext_equal]
pub enum SpecConvertErrorV {
    Clauses(Seq<char>),
    Order(Seq<char>),
    Convert(ConvertErrorV),
}

impl View for SpecConvertError {
    type V = SpecConvertErrorV;

    open spec fn view(&self) -> SpecConvertErrorV {
        match *self {
            SpecConvertError::Clauses(t) => SpecConvertErrorV::Clauses(t@),
            SpecConvertError::Order(t) => SpecConvertErrorV::Order(t@),
            SpecConvertError::Convert(e) => SpecConvertErrorV::Convert(e@),
        }
    }
}

/// The text of such an error.
pub open spec fn spec_error_text(e: SpecConvertErrorV) -> Seq<char> {
    match e {
        SpecConvertErrorV::Clauses(t) => "cannot read clauses from '"@ + t + "'"@,
        SpecConvertErrorV::Order(t) => "cannot read an order from '"@ + t + "'"@,
        SpecConvertErrorV::Convert(e) => legacy_convert::convert_error_text(e),
    }
}

impl SpecConvertError {
    /// The text of the error.
    pub fn to_string(&self) -> (r: String)
        ensures
            r@ == spec_error_text(self@),
    {
        match self {
            SpecConvertError::Clauses(t) => {
                let mut out: String = "cannot read clauses from '".to_owned();
                out.append(t.as_str());
                out.append("'");
                out
            },
            SpecConvertError::Order(t) => {
                let mut out: String = "cannot read an order from '".to_owned();
                out.append(t.as_str());
                out.append("'");
                out
            },
            SpecConvertError::Convert(e) => e.to_string(),
        }
    }
}

/// The clauses of a run of texts; the first text that has none.
pub open spec fn list_clauses(s: Seq<Seq<char>>) -> Result<Seq<ClauseV>, Seq<char>>
    decreases s.len(),
{
    if s.len() == 0 {
        Ok(Seq::empty())
    } else {
        match list_clauses(s.drop_last()) {
            Err(t) => Err(t),
            Ok(front) => match parse::clauses_of(s.last()) {
                Some(c) => Ok(front + c),
                None => Err(s.last()),
            },
        }
    }
}

/// The sub-spaces of a run of lists; the first text that has no clauses.
pub open spec fn group_clauses(s: Seq<Seq<Seq<char>>>) -> Result<Seq<Seq<ClauseV>>, Seq<char>>
    decreases s.len(),
{
    if s.len() == 0 {
        Ok(Seq::empty())
    } else {
        match group_clauses(s.drop_last()) {
            Err(t) => Err(t),
            Ok(front) => match list_clauses(s.last()) {
                Ok(c) => Ok(front.push(c)),
                Err(t) => Err(t),
            },
        }
    }
}

/// How the clauses of a document combine.
pub open spec fn mode_of_for(f: ForV) -> Result<ModeV, Seq<char>> {
    match f {
        ForV::Text(t) => match list_clauses(seq![t]) {
            Ok(c) => Ok(parse::mode_of(c)),
            Err(e) => Err(e),
        },
        ForV::List(l) => match list_clauses(l) {
            Ok(c) => Ok(parse::mode_of(c)),
            Err(e) => Err(e),
        },
        ForV::Groups(g) => match group_clauses(g) {
            Ok(spaces) => Ok(ModeV::Union(spaces)),
            Err(e) => Err(e),
        },
    }
}

/// The order of a document.
pub open spec fn order_of_spec(o: Option<Seq<char>>) -> Result<Option<OrderV>, Seq<char>> {
    match o {
        None => Ok(None),
        Some(t) => match parse::order_of(t) {
            Some(order) => Ok(Some(order)),
            None => Err(t),
        },
    }
}

/// The comprehension of a document in the algebra.
pub open spec fn algebra_of(s: SpecV) -> Result<CompV, SpecConvertErrorV> {
    match mode_of_for(s.clauses) {
        Err(t) => Err(SpecConvertErrorV::Clauses(t)),
        Ok(mode) => match order_of_spec(s.order) {
            Err(t) => Err(SpecConvertErrorV::Order(t)),
            Ok(order) => match legacy_convert::algebra_form(
                WrittenV { mode, filter: s.filter, order },
            ) {
                Err(e) => Err(SpecConvertErrorV::Convert(e)),
                Ok(c) => Ok(c),
            },
        },
    }
}

proof fn lemma_list_prefix(s: Seq<Seq<char>>, k: int)
    requires
        0 <= k <= s.len(),
        list_clauses(s.take(k)) is Err,
    ensures
        list_clauses(s) == list_clauses(s.take(k)),
    decreases s.len(),
{
    if k == s.len() {
        assert(s.take(k) =~= s);
    } else {
        assert(s.drop_last().take(k) =~= s.take(k));
        lemma_list_prefix(s.drop_last(), k);
    }
}

/// The clauses of `texts`.
fn read_list(texts: &Vec<String>) -> (r: Result<Vec<Clause>, String>)
    ensures
        match (r, list_clauses(chars::texts(texts@))) {
            (Ok(v), Ok(want)) => ast_legacy::clause_views(v@) == want,
            (Err(t), Err(want)) => t@ == want,
            _ => false,
        },
        r matches Ok(v) ==> ast_legacy::all_writable(ast_legacy::clause_views(v@)),
{
    let ghost all = chars::texts(texts@);
    let mut out: Vec<Clause> = Vec::new();
    let mut i: usize = 0;
    assert(all.take(0) =~= Seq::<Seq<char>>::empty());
    assert(ast_legacy::clause_views(out@) =~= Seq::<ClauseV>::empty());
    while i < texts.len()
        invariant
            i <= texts@.len(),
            all == chars::texts(texts@),
            list_clauses(all.take(i as int)) == Ok::<Seq<ClauseV>, Seq<char>>(
                ast_legacy::clause_views(out@),
            ),
            ast_legacy::all_writable(ast_legacy::clause_views(out@)),
        decreases texts.len() - i,
    {
        proof {
            assert(all.take(i + 1).drop_last() =~= all.take(i as int));
            assert(all.take(i + 1).last() == texts@[i as int]@);
        }
        match parse::parse_clauses(texts[i].as_str()) {
            Some(v) => {
                let mut more: Vec<Clause> = v;
                let ghost m = more@;
                let ghost before = out@;
                out.append(&mut more);
                proof {
                    assert(out@ =~= before + m);
                    assert(ast_legacy::clause_views(out@) =~= ast_legacy::clause_views(before)
                        + ast_legacy::clause_views(m));
                }
            },
            None => {
                proof {
                    lemma_list_prefix(all, i + 1);
                }
                return Err(texts[i].clone());
            },
        }
        i = i + 1;
    }
    assert(all.take(i as int) =~= all);
    Ok(out)
}

proof fn lemma_groups_prefix(s: Seq<Seq<Seq<char>>>, k: int)
    requires
        0 <= k <= s.len(),
        group_clauses(s.take(k)) is Err,
    ensures
        group_clauses(s) == group_clauses(s.take(k)),
    decreases s.len(),
{
    if k == s.len() {
        assert(s.take(k) =~= s);
    } else {
        assert(s.drop_last().take(k) =~= s.take(k));
        lemma_groups_prefix(s.drop_last(), k);
    }
}

/// The sub-spaces of `groups`.
fn read_groups(groups: &Vec<Vec<String>>) -> (r: Result<Vec<Subspace>, String>)
    ensures
        match (r, group_clauses(group_texts(groups@))) {
            (Ok(v), Ok(want)) => ast_legacy::subspace_views(v@) == want,
            (Err(t), Err(want)) => t@ == want,
            _ => false,
        },
        r matches Ok(v) ==> ast_legacy::all_writable(
            ast_legacy::flat_subspaces(ast_legacy::subspace_views(v@)),
        ),
{
    let ghost all = group_texts(groups@);
    let mut out: Vec<Subspace> = Vec::new();
    let mut i: usize = 0;
    assert(all.take(0) =~= Seq::<Seq<Seq<char>>>::empty());
    assert(ast_legacy::subspace_views(out@) =~= Seq::<Seq<ClauseV>>::empty());
    while i < groups.len()
        invariant
            i <= groups@.len(),
            all == group_texts(groups@),
            group_clauses(all.take(i as int)) == Ok::<Seq<Seq<ClauseV>>, Seq<char>>(
                ast_legacy::subspace_views(out@),
            ),
            ast_legacy::all_writable(
                ast_legacy::flat_subspaces(ast_legacy::subspace_views(out@)),
            ),
        decreases groups.len() - i,
    {
        proof {
            assert(all.take(i + 1).drop_last() =~= all.take(i as int));
            assert(all.take(i + 1).last() == all[i as int]);
            assert(all[i as int] == chars::texts(groups@[i as int]@));
        }
        match read_list(&groups[i]) {
            Ok(v) => {
                let ghost before = out@;
                let ghost vv = ast_legacy::clause_views(v@);
                out.push(Subspace::new(v));
                proof {
                    let b = ast_legacy::subspace_views(before);
                    let n = ast_legacy::subspace_views(out@);
                    assert(n =~= b.push(vv));
                    assert(n.drop_last() =~= b);
                    assert forall|k: int|
                        0 <= k < ast_legacy::flat_subspaces(n).len() implies ast_legacy::writable(
                        #[trigger] ast_legacy::flat_subspaces(n)[k],
                    ) by {
                        let f = ast_legacy::flat_subspaces(b);
                        if k < f.len() {
                            assert(ast_legacy::flat_subspaces(n)[k] == f[k]);
                        } else {
                            assert(ast_legacy::flat_subspaces(n)[k] == vv[k - f.len()]);
                        }
                    }
                }
            },
            Err(t) => {
                proof {
                    lemma_groups_prefix(all, i + 1);
                }
                return Err(t);
            },
        }
        i = i + 1;
    }
    assert(all.take(i as int) =~= all);
    Ok(out)
}

impl ComprehensionSpec {
    /// How the clauses combine.
    fn mode(&self) -> (r: Result<ComprehensionMode, String>)
        ensures
            match (r, mode_of_for(self@.clauses)) {
                (Ok(m), Ok(want)) => m@ == want,
                (Err(t), Err(want)) => t@ == want,
                _ => false,
            },
            r matches Ok(m) ==> ast_legacy::all_writable(ast_legacy::flat(m@)),
    {
        match &self.clauses {
            ForSpec::Text(t) => {
                let one: Vec<String> = vec![t.clone()];
                assert(chars::texts(one@) =~= seq![t@]);
                match read_list(&one) {
                    Ok(v) => Ok(parse::combine(v)),
                    Err(e) => Err(e),
                }
            },
            ForSpec::List(l) => match read_list(l) {
                Ok(v) => Ok(parse::combine(v)),
                Err(e) => Err(e),
            },
            ForSpec::Groups(g) => match read_groups(g) {
                Ok(v) => Ok(ComprehensionMode::Union(v)),
                Err(e) => Err(e),
            },
        }
    }

    /// The comprehension in the algebra.
    pub fn into_algebra(&self) -> (r: Result<Comprehension, SpecConvertError>)
        ensures
            match (r, algebra_of(self@)) {
                (Ok(c), Ok(want)) => ast::comp_view(c) == want,
                (Err(e), Err(want)) => e@ == want,
                _ => false,
            },
    {
        let mode: ComprehensionMode = match self.mode() {
            Ok(m) => m,
            Err(t) => return Err(SpecConvertError::Clauses(t)),
        };
        let order: Option<TraversalOrder> = match &self.order {
            None => None,
            Some(t) => match parse::parse_order_spec(t.as_str()) {
                Some(o) => Some(o),
                None => return Err(SpecConvertError::Order(t.clone())),
            },
        };
        let filter: Option<String> = match &self.filter {
            Some(f) => Some(f.clone()),
            None => None,
        };
        let written: ast_legacy::Comprehension = ast_legacy::Comprehension { mode, filter, order };
        match legacy_convert::legacy_to_algebra(&written) {
            Ok(c) => Ok(c),
            Err(e) => Err(SpecConvertError::Convert(e)),
        }
    }
}

} // verus!
