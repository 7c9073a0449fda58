//! Sources read from text.
//!
//! `lo..hi` and `lo..hi..step` are ranges, `{name}` is a parameter that
//! holds a list, literals separated by commas, in brackets or not, are a
//! list; anything else is a generator expression.
use crate::chars;
use crate::comprehension::ir::condition;
use crate::comprehension::source;
use crate::comprehension::source::{LiteralV, LiteralValue, Source, SourceV};
use vstd::prelude::*;

verus! {

/// Why a text is no source.
#[derive(Clone, Copy, Debug, PartialEq, Eq, Structural)]
pub enum SourceParseError {
    /// There is no text.
    Empty,
}

impl SourceParseError {
    /// The text of the error.
    pub fn to_string(self) -> (r: String)
        ensures
            r@ == "empty source expression"@,
    {
        "empty source expression".to_owned()
    }
}

/// The first place at or after `from` where `..` stands.
pub open spec fn next_dots(s: Seq<char>, from: int) -> Option<int>
    decreases s.len() - from,
{
    if from < 0 || from + 1 >= s.len() {
        None
    } else if s[from] == '.' && s[from + 1] == '.' {
        Some(from)
    } else {
        next_dots(s, from + 1)
    }
}

/// The bounds and the step of a range.
pub open spec fn range_of(s: Seq<char>) -> Option<(i64, i64, i64)> {
    match next_dots(s, 0) {
        None => None,
        Some(a) => {
            let lo = chars::read_i64(chars::trim(s.subrange(0, a)));
            match next_dots(s, a + 2) {
                None => match (lo, chars::read_i64(
                    chars::trim(s.subrange(a + 2, s.len() as int)),
                )) {
                    (Some(l), Some(h)) => Some((l, h, 1i64)),
                    _ => None,
                },
                Some(b) => match (
                    lo,
                    chars::read_i64(chars::trim(s.subrange(a + 2, b))),
                    chars::read_i64(chars::trim(s.subrange(b + 2, s.len() as int))),
                ) {
                    (Some(l), Some(h), Some(st)) => Some((l, h, st)),
                    _ => None,
                },
            }
        },
    }
}

/// The literals of a run of texts, where each is one.
pub open spec fn literals_of(s: Seq<Seq<char>>) -> Option<Seq<LiteralV>>
    decreases s.len(),
{
    if s.len() == 0 {
        Some(Seq::empty())
    } else {
        match (literals_of(s.drop_last()), condition::literal_of(s.last())) {
            (Some(front), Some(l)) => Some(front.push(l)),
            _ => None,
        }
    }
}

/// What stands between brackets, where a text does.
pub open spec fn bracketed(s: Seq<char>) -> Option<Seq<char>> {
    if s.len() >= 2 && s[0] == '[' && s.last() == ']' {
        Some(s.subrange(1, s.len() - 1))
    } else {
        None
    }
}

/// The literals of a list: those between brackets, or of the whole text.
pub open spec fn list_of(s: Seq<char>) -> Option<Seq<LiteralV>> {
    match bracketed(s) {
        Some(inner) => if chars::trim(inner).len() == 0 {
            Some(Seq::empty())
        } else {
            literals_of(condition::comma_pieces(inner, 0))
        },
        None => literals_of(condition::comma_pieces(s, 0)),
    }
}

/// The source that a text stands for; none where it is blank.
pub open spec fn source_of(text: Seq<char>) -> Option<SourceV> {
    let t = chars::trim(text);
    if t.len() == 0 {
        None
    } else {
        Some(
            match condition::braced_name(t) {
                Some(name) => SourceV::WorkloadParamList(name, None),
                None => match range_of(t) {
                    Some((lo, hi, step)) => SourceV::IntRange(lo, hi, step),
                    None => match list_of(t) {
                        Some(values) => SourceV::Literal(values),
                        None => SourceV::Generator(t, None),
                    },
                },
            },
        )
    }
}

/// The first place at or after `from` where `..` stands in `s`.
fn find_dots(s: &Vec<char>, from: usize) -> (r: Option<usize>)
    requires
        from <= s@.len(),
    ensures
        match r {
            Some(i) => next_dots(s@, from as int) == Some(i as int) && from <= i && i + 1
                < s@.len(),
            None => next_dots(s@, from as int) is None,
        },
{
    let mut i: usize = from;
    let n: usize = s.len();
    while n >= 2 && i < n - 1
        invariant
            n == s@.len(),
            from <= i <= n,
            next_dots(s@, from as int) == next_dots(s@, i as int),
        decreases n - i,
    {
        if s[i] == '.' && s[i + 1] == '.' {
            return Some(i);
        }
        i = i + 1;
    }
    None
}

fn int_between(s: &Vec<char>, from: usize, to: usize) -> (r: Option<i64>)
    requires
        from <= to <= s@.len(),
    ensures
        r == chars::read_i64(chars::trim(s@.subrange(from as int, to as int))),
{
    chars::i64_of_chars(&chars::trim_chars(&chars::slice_chars(s, from, to)))
}

/// The bounds and the step of a range.
fn parse_range(s: &Vec<char>) -> (r: Option<(i64, i64, i64)>)
    ensures
        r == range_of(s@),
{
    let end: usize = s.len();
    match find_dots(s, 0) {
        None => None,
        Some(a) => {
            let lo: Option<i64> = int_between(s, 0, a);
            match find_dots(s, a + 2) {
                None => match (lo, int_between(s, a + 2, end)) {
                    (Some(l), Some(h)) => Some((l, h, 1)),
                    _ => None,
                },
                Some(b) => match (lo, int_between(s, a + 2, b), int_between(s, b + 2, end)) {
                    (Some(l), Some(h), Some(st)) => Some((l, h, st)),
                    _ => None,
                },
            }
        },
    }
}

proof fn lemma_literals_prefix(s: Seq<Seq<char>>, k: int)
    requires
        0 <= k <= s.len(),
        literals_of(s.take(k)) is None,
    ensures
        literals_of(s) is None,
    decreases s.len(),
{
    if k == s.len() {
        assert(s.take(k) =~= s);
    } else {
        assert(s.drop_last().take(k) =~= s.take(k));
        lemma_literals_prefix(s.drop_last(), k);
    }
}

/// The literals of the comma-separated pieces of `s`, where each is one.
fn parse_literals(s: &Vec<char>) -> (r: Option<Vec<LiteralValue>>)
    ensures
        match (r, literals_of(condition::comma_pieces(s@, 0))) {
            (Some(v), Some(want)) => source::literal_views(v@) == want,
            (None, None) => true,
            _ => false,
        },
{
    let parts: Vec<Vec<char>> = condition::split_commas(s);
    let ghost all = condition::comma_pieces(s@, 0);
    let mut out: Vec<LiteralValue> = Vec::new();
    let mut i: usize = 0;
    assert(all.take(0) =~= Seq::<Seq<char>>::empty());
    assert(source::literal_views(out@) =~= Seq::<LiteralV>::empty());
    while i < parts.len()
        invariant
            i <= parts@.len(),
            all == condition::comma_pieces(s@, 0),
            condition::runs_of(parts@) == all,
            literals_of(all.take(i as int)) == Some(source::literal_views(out@)),
        decreases parts.len() - i,
    {
        proof {
            assert(all[i as int] == parts@[i as int]@);
            assert(all.take(i + 1).drop_last() =~= all.take(i as int));
            assert(all.take(i + 1).last() == parts@[i as int]@);
        }
        match condition::parse_literal(&parts[i]) {
            Some(l) => {
                let ghost before = out@;
                let ghost lv = l@;
                out.push(l);
                assert(source::literal_views(out@) =~= source::literal_views(before).push(lv));
            },
            None => {
                proof {
                    lemma_literals_prefix(all, i + 1);
                }
                return None;
            },
        }
        i = i + 1;
    }
    assert(parts@.len() == all.len());
    assert(all.take(i as int) =~= all);
    Some(out)
}

/// The literals of a list.
fn parse_list(s: &Vec<char>) -> (r: Option<Vec<LiteralValue>>)
    ensures
        match (r, list_of(s@)) {
            (Some(v), Some(want)) => source::literal_views(v@) == want,
            (None, None) => true,
            _ => false,
        },
{
    if s.len() >= 2 && s[0] == '[' && s[s.len() - 1] == ']' {
        let inner: Vec<char> = chars::slice_chars(s, 1, s.len() - 1);
        if chars::trim_chars(&inner).len() == 0 {
            let out: Vec<LiteralValue> = Vec::new();
            assert(source::literal_views(out@) =~= Seq::<LiteralV>::empty());
            Some(out)
        } else {
            parse_literals(&inner)
        }
    } else {
        parse_literals(s)
    }
}

/// The source that `text` stands for.
pub fn parse_source(text: &str) -> (r: Result<Source, SourceParseError>)
    ensures
        match (r, source_of(text@)) {
            (Ok(s), Some(want)) => s@ == want,
            (Err(e), None) => e == SourceParseError::Empty,
            _ => false,
        },
{
    let t: Vec<char> = chars::trim_chars(&chars::chars_of(text));
    if t.len() == 0 {
        return Err(SourceParseError::Empty);
    }
    if let Some(name) = condition::strip_curly(&t) {
        return Ok(Source::WorkloadParamList { name: chars::string_of(&name), len_hint: None });
    }
    if let Some((lo, hi, step)) = parse_range(&t) {
        return Ok(Source::IntRange { lo, hi, step });
    }
    if let Some(values) = parse_list(&t) {
        return Ok(Source::Literal { values });
    }
    Ok(Source::Generator { expr: chars::string_of(&t), cardinality_hint: None })
}

/// Every text that is not blank stands for a source.
pub proof fn law_source_total(text: Seq<char>)
    ensures
        source_of(text) is Some <==> chars::trim(text).len() > 0,
{
}

} // verus!
