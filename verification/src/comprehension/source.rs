//! Sources: where a clause takes its values from.
//!
//! A source is discrete (a literal list, an integer range, a generator
//! expression, a parameter that holds a list) or continuous (a real
//! interval under a measure, a named distribution).
use crate::chars;
use crate::comprehension::cardinality;
use crate::comprehension::cardinality::{
    CardinalityClass, CardinalityV, Interval, MeasureName, MeasureV, ProductMeasure,
};
use crate::float;
use crate::float::Float64;
use crate::value;
use crate::value::{same_items, ExtValue, Json, JsonV, RegLanes, Datum, DatumV};
use vstd::prelude::*;

verus! {

/// A literal value.
#[derive(Debug, PartialEq)]
pub enum LiteralValue {
    Int(i64),
    Float(Float64),
    String(String),
    Bool(bool),
}

/// The content of a literal value.
#[verifier::ext_equal]
pub enum LiteralV {
    Int(i64),
    Float(Float64),
    Text(Seq<char>),
    Bool(bool),
}

impl View for LiteralValue {
    type V = LiteralV;

    open spec fn view(&self) -> LiteralV {
        match *self {
            LiteralValue::Int(n) => LiteralV::Int(n),
            LiteralValue::Float(x) => LiteralV::Float(x),
            LiteralValue::String(s) => LiteralV::Text(s@),
            LiteralValue::Bool(b) => LiteralV::Bool(b),
        }
    }
}

impl Clone for LiteralValue {
    fn clone(&self) -> (r: LiteralValue)
        ensures
            r@ == self@,
    {
        match self {
            LiteralValue::Int(n) => LiteralValue::Int(*n),
            LiteralValue::Float(x) => LiteralValue::Float(*x),
            LiteralValue::String(s) => LiteralValue::String(s.clone()),
            LiteralValue::Bool(b) => LiteralValue::Bool(*b),
        }
    }
}

/// The contents of a run of literals.
pub open spec fn literal_views(s: Seq<LiteralValue>) -> Seq<LiteralV> {
    Seq::new(s.len(), |i: int| s[i]@)
}

/// The same literals.
pub fn copy_literals(values: &Vec<LiteralValue>) -> (r: Vec<LiteralValue>)
    ensures
        literal_views(r@) == literal_views(values@),
{
    let mut out: Vec<LiteralValue> = Vec::new();
    let mut i: usize = 0;
    while i < values.len()
        invariant
            i <= values@.len(),
            out@.len() == i,
            forall|k: int| 0 <= k < i ==> (#[trigger] out@[k])@ == values@[k]@,
        decreases values.len() - i,
    {
        out.push(values[i].clone());
        i = i + 1;
    }
    assert(literal_views(out@) =~= literal_views(values@));
    out
}

/// Where a clause takes its values from.
#[derive(Debug, PartialEq)]
pub enum Source {
    /// The values of a list.
    Literal { values: Vec<LiteralValue> },
    /// `lo`, `lo + step` and so on below `hi`. A step below one counts as
    /// one.
    IntRange { lo: i64, hi: i64, step: i64 },
    /// A generator expression.
    Generator { expr: String, cardinality_hint: Option<u64> },
    /// A parameter that holds a list.
    WorkloadParamList { name: String, len_hint: Option<u64> },
    /// A real interval under a measure.
    ContinuousInterval { interval: Interval, measure: ProductMeasure },
    /// A named distribution over its support.
    Distribution { distribution: MeasureName, support: Interval, params: Vec<Float64> },
}

/// The content of a source.
#[verifier::ext_equal]
pub enum SourceV {
    Literal(Seq<LiteralV>),
    IntRange(i64, i64, i64),
    Generator(Seq<char>, Option<u64>),
    WorkloadParamList(Seq<char>, Option<u64>),
    ContinuousInterval(Interval, MeasureV),
    Distribution(MeasureName, Interval, Seq<Float64>),
}

impl View for Source {
    type V = SourceV;

    open spec fn view(&self) -> SourceV {
        match *self {
            Source::Literal { values } => SourceV::Literal(literal_views(values@)),
            Source::IntRange { lo, hi, step } => SourceV::IntRange(lo, hi, step),
            Source::Generator { expr, cardinality_hint } => SourceV::Generator(
                expr@,
                cardinality_hint,
            ),
            Source::WorkloadParamList { name, len_hint } => SourceV::WorkloadParamList(
                name@,
                len_hint,
            ),
            Source::ContinuousInterval { interval, measure } => SourceV::ContinuousInterval(
                interval,
                cardinality::measure_view(measure),
            ),
            Source::Distribution { distribution, support, params } => SourceV::Distribution(
                distribution,
                support,
                params@,
            ),
        }
    }
}

/// The step of a range: at least one.
pub open spec fn effective_step(step: i64) -> int {
    if step < 1 {
        1
    } else {
        step as int
    }
}

/// The number of values of a range.
pub open spec fn range_len(lo: i64, hi: i64, step: i64) -> nat {
    if hi <= lo {
        0
    } else {
        ((hi - lo + effective_step(step) - 1) / effective_step(step)) as nat
    }
}

/// The values of a range.
pub open spec fn range_values(lo: i64, hi: i64, step: i64) -> Seq<i64> {
    Seq::new(range_len(lo, hi, step), |i: int| (lo + i * effective_step(step)) as i64)
}

/// Whether stepping through a range past its last value stays within 64
/// bits.
pub open spec fn range_fits(lo: i64, hi: i64, step: i64) -> bool {
    lo + range_len(lo, hi, step) * effective_step(step) <= i64::MAX
}

/// How many values a source has.
pub open spec fn source_cardinality(s: SourceV) -> CardinalityV {
    match s {
        SourceV::Literal(values) => CardinalityV::Bounded(values.len() as u64),
        SourceV::IntRange(lo, hi, step) => CardinalityV::Bounded(range_len(lo, hi, step) as u64),
        SourceV::Generator(_, hint) => match hint {
            Some(n) => CardinalityV::Bounded(n),
            None => CardinalityV::Unbounded,
        },
        SourceV::WorkloadParamList(_, hint) => match hint {
            Some(n) => CardinalityV::Bounded(n),
            None => CardinalityV::Unbounded,
        },
        SourceV::ContinuousInterval(interval, measure) => CardinalityV::Continuous(
            seq![interval],
            measure,
        ),
        SourceV::Distribution(name, support, _) => CardinalityV::Continuous(
            seq![support],
            MeasureV::Named(name),
        ),
    }
}

impl Source {
    /// Whether the source is continuous.
    pub open spec fn continuous(self) -> bool {
        self is ContinuousInterval || self is Distribution
    }

    /// The same source.
    pub fn copy(&self) -> (r: Source)
        ensures
            r@ == self@,
    {
        match self {
            Source::Literal { values } => Source::Literal { values: copy_literals(values) },
            Source::IntRange { lo, hi, step } => Source::IntRange {
                lo: *lo,
                hi: *hi,
                step: *step,
            },
            Source::Generator { expr, cardinality_hint } => Source::Generator {
                expr: expr.clone(),
                cardinality_hint: *cardinality_hint,
            },
            Source::WorkloadParamList { name, len_hint } => Source::WorkloadParamList {
                name: name.clone(),
                len_hint: *len_hint,
            },
            Source::ContinuousInterval { interval, measure } => Source::ContinuousInterval {
                interval: *interval,
                measure: measure.copy(),
            },
            Source::Distribution { distribution, support, params } => Source::Distribution {
                distribution: *distribution,
                support: *support,
                params: same_items(params),
            },
        }
    }

    /// How many values the source has.
    pub fn cardinality(&self) -> (r: CardinalityClass)
        ensures
            r@ == source_cardinality(self@),
    {
        let r: CardinalityClass = match self {
            Source::Literal { values } => CardinalityClass::Bounded(values.len() as u64),
            Source::IntRange { lo, hi, step } => {
                let by: u64 = if *step < 1 {
                    1
                } else {
                    *step as u64
                };
                if *hi <= *lo {
                    CardinalityClass::Bounded(0)
                } else {
                    let span: u64 = (*hi as i128 - *lo as i128) as u64;
                    proof {
                        assert((span + by - 1) / (by as int) <= span) by (nonlinear_arith)
                            requires
                                span >= 1,
                                by >= 1,
                        ;
                        assert((span - 1) / (by as int) + 1 == (span + by - 1) / (by as int))
                            by (nonlinear_arith)
                            requires
                                span >= 1,
                                by >= 1,
                        ;
                    }
                    CardinalityClass::Bounded((span - 1) / by + 1)
                }
            },
            Source::Generator { cardinality_hint, .. } => match cardinality_hint {
                Some(n) => CardinalityClass::Bounded(*n),
                None => CardinalityClass::Unbounded,
            },
            Source::WorkloadParamList { len_hint, .. } => match len_hint {
                Some(n) => CardinalityClass::Bounded(*n),
                None => CardinalityClass::Unbounded,
            },
            Source::ContinuousInterval { interval, measure } => CardinalityClass::Continuous {
                intervals: vec![*interval],
                measure: measure.copy(),
            },
            Source::Distribution { distribution, support, .. } => CardinalityClass::Continuous {
                intervals: vec![*support],
                measure: ProductMeasure::Named(*distribution),
            },
        };
        assert(r@ =~= source_cardinality(self@));
        r
    }

    /// Whether the source is continuous.
    pub fn is_continuous(&self) -> (r: bool)
        ensures
            r == self.continuous(),
    {
        matches!(self, Source::ContinuousInterval { .. } | Source::Distribution { .. })
    }

    /// Whether the source is discrete.
    pub fn is_discrete(&self) -> (r: bool)
        ensures
            r == !self.continuous(),
    {
        !self.is_continuous()
    }
}

// ---------------------------------------------------------------------
// Iterating over a value
// ---------------------------------------------------------------------

/// What separates the tokens of a string: a comma, a semicolon, ASCII
/// white space.
pub open spec fn is_separator(c: char) -> bool {
    c == ',' || c == ';' || c == ' ' || c == '\t' || c == '\n' || c == '\u{c}' || c == '\r'
}

/// The first separator at or after `from`; the end of the text where there
/// is none.
pub open spec fn next_separator(s: Seq<char>, from: int) -> int
    decreases s.len() - from,
{
    if from < 0 || from >= s.len() {
        s.len() as int
    } else if is_separator(s[from]) {
        from
    } else {
        next_separator(s, from + 1)
    }
}

/// The tokens of a text from `from` on: what stands between separators,
/// trimmed, where anything does.
pub open spec fn tokens_from(s: Seq<char>, from: int) -> Seq<Seq<char>>
    decreases s.len() - from,
{
    if from < 0 || from > s.len() {
        Seq::empty()
    } else {
        let end = next_separator(s, from);
        let token = chars::trim(s.subrange(from, end));
        let head = if token.len() == 0 {
            Seq::empty()
        } else {
            seq![token]
        };
        if end < from || end >= s.len() {
            head
        } else {
            head + tokens_from(s, end + 1)
        }
    }
}

/// The tokens of a text.
pub open spec fn tokens(s: Seq<char>) -> Seq<Seq<char>> {
    tokens_from(s, 0)
}

/// What a token stands for: an unsigned integer, else a float, else a
/// truth value, else the text itself.
pub open spec fn token_value(t: Seq<char>) -> DatumV {
    match chars::read_u64(t) {
        Some(n) => DatumV::U64(n),
        None => match float::read_f64(t) {
            Some(x) => DatumV::F64(x),
            None => if t == "true"@ {
                DatumV::Bool(true)
            } else if t == "false"@ {
                DatumV::Bool(false)
            } else {
                DatumV::Str(t)
            },
        },
    }
}

/// The token values of a text.
pub open spec fn token_values(s: Seq<char>) -> Seq<DatumV> {
    tokens(s).map_values(|t: Seq<char>| token_value(t))
}

/// The elements that a value is iterated as; a scalar has none.
pub open spec fn interior(v: DatumV) -> Option<Seq<DatumV>> {
    match v {
        DatumV::VecF32(s) | DatumV::VecF64(s) | DatumV::VecF16(s) => Some(
            s.map_values(|x: Float64| DatumV::F64(x)),
        ),
        DatumV::VecI32(s) => Some(s.map_values(|x: i32| DatumV::I64(x as i64))),
        DatumV::VecI64(s) => Some(s.map_values(|x: i64| DatumV::I64(x))),
        DatumV::VecI16(s) => Some(s.map_values(|x: i16| DatumV::I64(x as i64))),
        DatumV::VecI8(s) => Some(s.map_values(|x: i8| DatumV::I64(x as i64))),
        DatumV::Json(JsonV::Array(items)) => Some(items.map_values(|j: JsonV| DatumV::Json(j))),
        DatumV::Partitions(ps) => Some(
            ps.map_values(|p: value::Partition| DatumV::Partition(p)),
        ),
        DatumV::Reg128(lanes, ints, floats) => match lanes {
            RegLanes::Raw => None,
            RegLanes::I8x16 | RegLanes::I16x8 | RegLanes::I32x4 | RegLanes::I64x2 => Some(
                ints.map_values(|x: i64| DatumV::I64(x)),
            ),
            RegLanes::F16x8 | RegLanes::F32x4 | RegLanes::F64x2 => Some(
                floats.map_values(|x: Float64| DatumV::F64(x)),
            ),
        },
        DatumV::Str(s) => Some(token_values(s)),
        _ => None,
    }
}

fn float_values(v: &Vec<Float64>) -> (r: Vec<Datum>)
    ensures
        value::views(r@) == v@.map_values(|x: Float64| DatumV::F64(x)),
{
    let mut out: Vec<Datum> = Vec::new();
    let mut i: usize = 0;
    while i < v.len()
        invariant
            i <= v@.len(),
            out@.len() == i,
            forall|k: int| 0 <= k < i ==> (#[trigger] out@[k])@ == DatumV::F64(v@[k]),
        decreases v.len() - i,
    {
        out.push(Datum::F64(v[i]));
        i = i + 1;
    }
    assert(value::views(out@) =~= v@.map_values(|x: Float64| DatumV::F64(x)));
    out
}

fn int_values(v: &Vec<i64>) -> (r: Vec<Datum>)
    ensures
        value::views(r@) == v@.map_values(|x: i64| DatumV::I64(x)),
{
    let mut out: Vec<Datum> = Vec::new();
    let mut i: usize = 0;
    while i < v.len()
        invariant
            i <= v@.len(),
            out@.len() == i,
            forall|k: int| 0 <= k < i ==> (#[trigger] out@[k])@ == DatumV::I64(v@[k]),
        decreases v.len() - i,
    {
        out.push(Datum::I64(v[i]));
        i = i + 1;
    }
    assert(value::views(out@) =~= v@.map_values(|x: i64| DatumV::I64(x)));
    out
}

fn int32_values(v: &Vec<i32>) -> (r: Vec<Datum>)
    ensures
        value::views(r@) == v@.map_values(|x: i32| DatumV::I64(x as i64)),
{
    let mut out: Vec<Datum> = Vec::new();
    let mut i: usize = 0;
    while i < v.len()
        invariant
            i <= v@.len(),
            out@.len() == i,
            forall|k: int| 0 <= k < i ==> (#[trigger] out@[k])@ == DatumV::I64(v@[k] as i64),
        decreases v.len() - i,
    {
        out.push(Datum::I64(v[i] as i64));
        i = i + 1;
    }
    assert(value::views(out@) =~= v@.map_values(|x: i32| DatumV::I64(x as i64)));
    out
}

fn int16_values(v: &Vec<i16>) -> (r: Vec<Datum>)
    ensures
        value::views(r@) == v@.map_values(|x: i16| DatumV::I64(x as i64)),
{
    let mut out: Vec<Datum> = Vec::new();
    let mut i: usize = 0;
    while i < v.len()
        invariant
            i <= v@.len(),
            out@.len() == i,
            forall|k: int| 0 <= k < i ==> (#[trigger] out@[k])@ == DatumV::I64(v@[k] as i64),
        decreases v.len() - i,
    {
        out.push(Datum::I64(v[i] as i64));
        i = i + 1;
    }
    assert(value::views(out@) =~= v@.map_values(|x: i16| DatumV::I64(x as i64)));
    out
}

fn int8_values(v: &Vec<i8>) -> (r: Vec<Datum>)
    ensures
        value::views(r@) == v@.map_values(|x: i8| DatumV::I64(x as i64)),
{
    let mut out: Vec<Datum> = Vec::new();
    let mut i: usize = 0;
    while i < v.len()
        invariant
            i <= v@.len(),
            out@.len() == i,
            forall|k: int| 0 <= k < i ==> (#[trigger] out@[k])@ == DatumV::I64(v@[k] as i64),
        decreases v.len() - i,
    {
        out.push(Datum::I64(v[i] as i64));
        i = i + 1;
    }
    assert(value::views(out@) =~= v@.map_values(|x: i8| DatumV::I64(x as i64)));
    out
}

fn json_values(items: &Vec<Json>) -> (r: Vec<Datum>)
    ensures
        value::views(r@) == value::json_items(items@).map_values(|j: JsonV| DatumV::Json(j)),
{
    proof {
        value::lemma_json_items(items@);
    }
    let ghost goal = value::json_items(items@);
    let mut out: Vec<Datum> = Vec::new();
    let mut i: usize = 0;
    while i < items.len()
        invariant
            i <= items@.len(),
            out@.len() == i,
            goal.len() == items@.len(),
            forall|k: int|
                0 <= k < items@.len() ==> #[trigger] goal[k] == value::json_view(items@[k]),
            forall|k: int| 0 <= k < i ==> (#[trigger] out@[k])@ == DatumV::Json(goal[k]),
        decreases items.len() - i,
    {
        assert(goal[i as int] == value::json_view(items@[i as int]));
        out.push(Datum::Json(items[i].copy()));
        i = i + 1;
    }
    assert(value::views(out@) =~= goal.map_values(|j: JsonV| DatumV::Json(j)));
    out
}

fn partition_values(v: &Vec<value::Partition>) -> (r: Vec<Datum>)
    ensures
        value::views(r@) == v@.map_values(|p: value::Partition| DatumV::Partition(p)),
{
    let mut out: Vec<Datum> = Vec::new();
    let mut i: usize = 0;
    while i < v.len()
        invariant
            i <= v@.len(),
            out@.len() == i,
            forall|k: int| 0 <= k < i ==> (#[trigger] out@[k])@ == DatumV::Partition(v@[k]),
        decreases v.len() - i,
    {
        out.push(Datum::Ext(ExtValue::Partition(v[i])));
        i = i + 1;
    }
    assert(value::views(out@) =~= v@.map_values(|p: value::Partition| DatumV::Partition(p)));
    out
}

/// The elements that `v` is iterated as; `None` for a scalar.
pub fn iteration_interior(v: &Datum) -> (r: Option<Vec<Datum>>)
    ensures
        r is Some <==> interior(v@) is Some,
        r matches Some(items) ==> value::views(items@) == interior(v@)->0,
{
    match v {
        Datum::VecF32(s) => Some(float_values(s)),
        Datum::VecF64(s) => Some(float_values(s)),
        Datum::VecF16(s) => Some(float_values(s)),
        Datum::VecI32(s) => Some(int32_values(s)),
        Datum::VecI64(s) => Some(int_values(s)),
        Datum::VecI16(s) => Some(int16_values(s)),
        Datum::VecI8(s) => Some(int8_values(s)),
        Datum::Json(j) => match j {
            Json::Array(items) => Some(json_values(items)),
            _ => None,
        },
        Datum::Ext(e) => match e {
            ExtValue::Partitions(list) => Some(partition_values(list)),
            _ => None,
        },
        Datum::Reg128(reg) => match reg.lanes {
            RegLanes::Raw => None,
            RegLanes::I8x16 | RegLanes::I16x8 | RegLanes::I32x4 | RegLanes::I64x2 => Some(
                int_values(&reg.ints),
            ),
            RegLanes::F16x8 | RegLanes::F32x4 | RegLanes::F64x2 => Some(
                float_values(&reg.floats),
            ),
        },
        Datum::Str(s) => Some(strip_string_tokens(s.as_str())),
        _ => None,
    }
}

/// The value that a token stands for.
fn typed_token(t: &String) -> (r: Datum)
    ensures
        r@ == token_value(t@),
{
    let cs: Vec<char> = chars::chars_of(t.as_str());
    match chars::u64_of_chars(&cs) {
        Some(n) => Datum::U64(n),
        None => match Float64::of_chars(&cs) {
            Some(x) => Datum::F64(x),
            None => if *t.as_str() == *"true" {
                Datum::Bool(true)
            } else if *t.as_str() == *"false" {
                Datum::Bool(false)
            } else {
                Datum::Str(t.clone())
            },
        },
    }
}

/// The token values of a text.
pub fn strip_string_tokens(s: &str) -> (r: Vec<Datum>)
    ensures
        value::views(r@) == token_values(s@),
{
    let parts: Vec<String> = split_string_comprehension(s);
    let mut out: Vec<Datum> = Vec::new();
    let mut i: usize = 0;
    while i < parts.len()
        invariant
            i <= parts@.len(),
            out@.len() == i,
            forall|k: int| 0 <= k < i ==> (#[trigger] out@[k])@ == token_value(parts@[k]@),
        decreases parts.len() - i,
    {
        out.push(typed_token(&parts[i]));
        i = i + 1;
    }
    proof {
        assert forall|k: int| 0 <= k < parts@.len() implies #[trigger] value::views(out@)[k]
            == token_values(s@)[k] by {
            assert(chars::texts(parts@)[k] == parts@[k]@);
        }
        assert(value::views(out@) =~= token_values(s@));
    }
    out
}

/// The tokens of a text: what stands between commas, semicolons and ASCII
/// white space, trimmed, where anything does.
pub fn split_string_comprehension(s: &str) -> (r: Vec<String>)
    ensures
        chars::texts(r@) == tokens(s@),
{
    let cs: Vec<char> = chars::chars_of(s);
    let mut out: Vec<String> = Vec::new();
    let mut start: usize = 0;
    let mut i: usize = 0;
    let ghost goal = tokens(cs@);
    assert(chars::texts(out@) + tokens_from(cs@, 0) =~= goal);
    while i < cs.len()
        invariant
            start <= i <= cs@.len(),
            goal == tokens(cs@),
            next_separator(cs@, start as int) == next_separator(cs@, i as int),
            chars::texts(out@) + tokens_from(cs@, start as int) == goal,
        decreases cs.len() - i,
    {
        let c: char = cs[i];
        if c == ',' || c == ';' || c == ' ' || c == '\t' || c == '\n' || c == '\u{c}' || c == '\r' {
            assert(next_separator(cs@, i as int) == i);
            push_token(&mut out, &cs, start, i, Ghost(goal));
            start = i + 1;
        } else {
            assert(next_separator(cs@, i as int) == next_separator(cs@, i + 1));
        }
        i = i + 1;
    }
    push_token(&mut out, &cs, start, i, Ghost(goal));
    out
}

/// Add the token `cs[start..end]` where anything is left after trimming.
fn push_token(out: &mut Vec<String>, cs: &Vec<char>, start: usize, end: usize, goal: Ghost<Seq<Seq<char>>>)
    requires
        start <= end <= cs@.len(),
        next_separator(cs@, start as int) == end,
        chars::texts(old(out)@) + tokens_from(cs@, start as int) == goal@,
    ensures
        end < cs@.len() ==> chars::texts(final(out)@) + tokens_from(cs@, end + 1) == goal@,
        end == cs@.len() ==> chars::texts(final(out)@) == goal@,
{
    let piece: Vec<char> = chars::slice_chars(cs, start, end);
    let token: Vec<char> = chars::trim_chars(&piece);
    let ghost before = out@;
    let ghost head = if token@.len() == 0 {
        Seq::<Seq<char>>::empty()
    } else {
        seq![token@]
    };
    if token.len() > 0 {
        out.push(chars::string_of(&token));
        assert(chars::texts(out@) =~= chars::texts(before).push(token@));
    }
    proof {
        assert(chars::texts(out@) =~= chars::texts(before) + head);
        if end < cs@.len() {
            assert(tokens_from(cs@, start as int) == head + tokens_from(cs@, end + 1));
            assert(chars::texts(before) + (head + tokens_from(cs@, end + 1)) =~= chars::texts(out@)
                + tokens_from(cs@, end + 1));
        } else {
            assert(tokens_from(cs@, start as int) == head);
        }
    }
}

// ---------------------------------------------------------------------
// Laws
// ---------------------------------------------------------------------

proof fn lemma_no_separator(s: Seq<char>, from: int)
    requires
        0 <= from <= s.len(),
        forall|i: int| 0 <= i < s.len() ==> !is_separator(#[trigger] s[i]),
    ensures
        next_separator(s, from) == s.len(),
    decreases s.len() - from,
{
    if from < s.len() {
        lemma_no_separator(s, from + 1);
    }
}

/// A text without separators that trimming leaves as it is, and that is
/// not empty, is its own single token.
pub proof fn law_single_token(s: Seq<char>)
    requires
        s.len() > 0,
        chars::trim(s) == s,
        forall|i: int| 0 <= i < s.len() ==> !is_separator(#[trigger] s[i]),
    ensures
        tokens(s) == seq![s],
        interior(DatumV::Str(s)) == Some(seq![token_value(s)]),
{
    lemma_no_separator(s, 0);
    assert(s.subrange(0, s.len() as int) =~= s);
    assert(tokens(s) =~= seq![s]);
    assert(token_values(s) =~= seq![token_value(s)]);
}

/// Whether a text is a token: it is not empty, has no separator, and no
/// white space at its ends.
pub open spec fn is_token(t: Seq<char>) -> bool {
    &&& t.len() > 0
    &&& chars::trim(t) == t
    &&& forall|i: int| 0 <= i < t.len() ==> !is_separator(#[trigger] t[i])
}

/// The next separator of a text behind another.
proof fn lemma_separator_behind(a: Seq<char>, b: Seq<char>, k: int)
    requires
        0 <= k <= b.len(),
    ensures
        next_separator(a + b, a.len() + k) == a.len() + next_separator(b, k),
    decreases b.len() - k,
{
    if k < b.len() {
        assert((a + b)[a.len() + k] == b[k]);
        lemma_separator_behind(a, b, k + 1);
    }
}

/// The next separator stands where it is looked for or behind.
proof fn lemma_separator_within(s: Seq<char>, from: int)
    requires
        0 <= from <= s.len(),
    ensures
        from <= next_separator(s, from) <= s.len(),
        next_separator(s, from) < s.len() ==> is_separator(s[next_separator(s, from)]),
        forall|i: int| from <= i < next_separator(s, from) ==> !is_separator(#[trigger] s[i]),
    decreases s.len() - from,
{
    if from < s.len() && !is_separator(s[from]) {
        lemma_separator_within(s, from + 1);
    }
}

/// The tokens of a text behind another.
proof fn lemma_tokens_behind(a: Seq<char>, b: Seq<char>, k: int)
    requires
        0 <= k <= b.len(),
    ensures
        tokens_from(a + b, a.len() + k) == tokens_from(b, k),
    decreases b.len() - k,
{
    let w = a + b;
    let end = next_separator(b, k);
    lemma_separator_behind(a, b, k);
    lemma_separator_within(b, k);
    assert(w.subrange(a.len() + k, a.len() + end) =~= b.subrange(k, end));
    if end < b.len() {
        lemma_tokens_behind(a, b, end + 1);
    }
}

/// The tokens of two texts with a separator between them.
proof fn lemma_tokens_split(a: Seq<char>, c: char, b: Seq<char>, from: int)
    requires
        is_separator(c),
        0 <= from <= a.len(),
    ensures
        tokens_from(a + seq![c] + b, from) == tokens_from(a, from) + tokens(b),
    decreases a.len() - from,
{
    let w = a + seq![c] + b;
    let end = next_separator(a, from);
    lemma_separator_within(a, from);
    lemma_separator_before(a, c, b, from);
    assert(w.subrange(from, end) =~= a.subrange(from, end));
    let token = chars::trim(a.subrange(from, end));
    let head = if token.len() == 0 {
        Seq::<Seq<char>>::empty()
    } else {
        seq![token]
    };
    if end < a.len() {
        lemma_tokens_split(a, c, b, end + 1);
        assert(head + (tokens_from(a, end + 1) + tokens(b)) =~= head + tokens_from(a, end + 1)
            + tokens(b));
    } else {
        assert(w =~= a.push(c) + b);
        lemma_tokens_behind(a.push(c), b, 0);
    }
}

/// The next separator of a text before a separator.
proof fn lemma_separator_before(a: Seq<char>, c: char, b: Seq<char>, from: int)
    requires
        is_separator(c),
        0 <= from <= a.len(),
    ensures
        next_separator(a + seq![c] + b, from) == next_separator(a, from),
    decreases a.len() - from,
{
    let w = a + seq![c] + b;
    if from < a.len() {
        assert(w[from] == a[from]);
        lemma_separator_before(a, c, b, from + 1);
    } else {
        assert(w[from] == c);
    }
}

/// Tokens that are joined are split again.
pub proof fn law_joined_tokens(ts: Seq<Seq<char>>)
    requires
        forall|i: int| 0 <= i < ts.len() ==> is_token(#[trigger] ts[i]),
    ensures
        tokens(chars::joined(ts, ", "@)) == ts,
    decreases ts.len(),
{
    let none = Seq::<char>::empty();
    reveal_strlit(", ");
    assert(tokens(none) =~= Seq::<Seq<char>>::empty()) by {
        assert(none.subrange(0, 0) =~= none);
    }
    if ts.len() == 0 {
        assert(ts =~= Seq::<Seq<char>>::empty());
    } else {
        assert(is_token(ts[ts.len() - 1]));
        law_single_token(ts.last());
        if ts.len() == 1 {
            assert(ts =~= seq![ts[0]]);
        } else {
            let front = ts.drop_last();
            assert forall|i: int| 0 <= i < front.len() implies is_token(#[trigger] front[i]) by {
                assert(is_token(ts[i]));
            }
            law_joined_tokens(front);
            let lead = chars::joined(front, ", "@);
            let tail = none + seq![' '] + ts.last();
            lemma_tokens_split(none, ' ', ts.last(), 0);
            lemma_tokens_split(lead, ',', tail, 0);
            assert(lead + ", "@ + ts.last() =~= lead + seq![','] + tail);
            assert(tokens(chars::joined(ts, ", "@)) =~= front + seq![ts.last()]);
            assert(front + seq![ts.last()] =~= ts);
        }
    }
}

/// The places from `from` on where a run without separators begins.
pub open spec fn run_starts(s: Seq<char>, from: int) -> Seq<int>
    decreases s.len() - from,
{
    if from < 0 || from >= s.len() {
        Seq::empty()
    } else if !is_separator(s[from]) && (from == 0 || is_separator(s[from - 1])) {
        seq![from] + run_starts(s, from + 1)
    } else {
        run_starts(s, from + 1)
    }
}

/// The run without separators that begins at a place.
pub open spec fn run_at(s: Seq<char>, from: int) -> Seq<char> {
    s.subrange(from, next_separator(s, from))
}

/// The runs without separators of a text from `from` on, each as long as it
/// can be, in order.
pub open spec fn runs_from(s: Seq<char>, from: int) -> Seq<Seq<char>> {
    run_starts(s, from).map_values(|i: int| run_at(s, i))
}

/// No run begins inside another.
proof fn lemma_inside_run(s: Seq<char>, from: int, to: int)
    requires
        0 < from <= to <= s.len(),
        !is_separator(s[from - 1]),
        forall|i: int| from <= i < to ==> !is_separator(#[trigger] s[i]),
    ensures
        run_starts(s, from) == run_starts(s, to),
    decreases to - from,
{
    if from < to {
        assert(!is_separator(s[from]));
        lemma_inside_run(s, from + 1, to);
    }
}

/// Trimming leaves what has no white space as it is.
proof fn lemma_nothing_to_trim(t: Seq<char>)
    requires
        forall|i: int| 0 <= i < t.len() ==> !chars::is_space(#[trigger] t[i]),
    ensures
        chars::trim(t) == t,
{
    if t.len() > 0 {
        assert(!chars::is_space(t[0]));
        assert(!chars::is_space(t[t.len() - 1]));
    }
}

/// The tokens of a text whose white space is all among the separators are
/// its runs without separators.
proof fn lemma_tokens_are_runs(s: Seq<char>, from: int)
    requires
        forall|i: int| 0 <= i < s.len() && chars::is_space(#[trigger] s[i]) ==> is_separator(s[i]),
        0 <= from <= s.len(),
        from == 0 || is_separator(s[from - 1]),
    ensures
        tokens_from(s, from) == runs_from(s, from),
        forall|i: int|
            0 <= i < tokens_from(s, from).len() ==> is_token(#[trigger] tokens_from(s, from)[i]),
    decreases s.len() - from,
{
    let end = next_separator(s, from);
    let t = s.subrange(from, end);
    let f = |i: int| run_at(s, i);
    lemma_separator_within(s, from);
    assert forall|i: int| 0 <= i < t.len() implies !chars::is_space(#[trigger] t[i])
        && !is_separator(t[i]) by {
        assert(t[i] == s[from + i]);
    }
    lemma_nothing_to_trim(t);
    let head = if t.len() == 0 {
        Seq::<Seq<char>>::empty()
    } else {
        seq![t]
    };
    let tail = if end < s.len() {
        tokens_from(s, end + 1)
    } else {
        Seq::<Seq<char>>::empty()
    };
    assert(tokens_from(s, from) =~= head + tail);
    if end < s.len() {
        lemma_tokens_are_runs(s, end + 1);
    }
    if from < s.len() && from < end {
        lemma_inside_run(s, from + 1, end);
        assert(run_starts(s, from) == seq![from] + run_starts(s, end));
    }
    assert(run_starts(s, end) == run_starts(s, end + 1));
    assert(runs_from(s, from) =~= head + runs_from(s, end + 1));
    assert(end >= s.len() ==> runs_from(s, end + 1) =~= Seq::<Seq<char>>::empty());
    assert(tokens_from(s, from) =~= runs_from(s, from));
    assert forall|i: int| 0 <= i < tokens_from(s, from).len() implies is_token(
        #[trigger] tokens_from(s, from)[i],
    ) by {
        if i < head.len() {
            assert(tokens_from(s, from)[i] == t);
        } else {
            assert(tokens_from(s, from)[i] == tail[i - head.len()]);
            assert(is_token(tail[i - head.len()]));
        }
    }
}

/// The tokens of a text whose white space is all among the separators are
/// its runs without separators, each as long as it can be, in order; and
/// joined they are split into the same tokens again.
pub proof fn law_tokens_are_runs(s: Seq<char>)
    requires
        forall|i: int| 0 <= i < s.len() && chars::is_space(#[trigger] s[i]) ==> is_separator(s[i]),
    ensures
        tokens(s) == runs_from(s, 0),
        tokens(chars::joined(tokens(s), ", "@)) == tokens(s),
{
    lemma_tokens_are_runs(s, 0);
    law_joined_tokens(tokens(s));
}

/// A range's values start at its lower bound, grow by its step and stay
/// below its upper bound, and the next one would not.
pub proof fn law_range_values(lo: i64, hi: i64, step: i64)
    ensures
        forall|i: int|
            0 <= i < range_values(lo, hi, step).len() ==> #[trigger] range_values(lo, hi, step)[i]
                == lo + i * effective_step(step) && lo <= range_values(lo, hi, step)[i] < hi,
        lo + range_len(lo, hi, step) * effective_step(step) >= hi,
{
    let by = effective_step(step);
    let n = range_len(lo, hi, step) as int;
    if hi > lo {
        let span = hi - lo;
        assert(n * by >= span && (n - 1) * by < span) by (nonlinear_arith)
            requires
                n == (span + by - 1) / by,
                by >= 1,
                span >= 1,
        ;
        assert forall|i: int| 0 <= i < n implies #[trigger] range_values(lo, hi, step)[i] == lo + i
            * by && lo <= range_values(lo, hi, step)[i] < hi by {
            assert(0 <= i * by <= (n - 1) * by) by (nonlinear_arith)
                requires
                    0 <= i <= n - 1,
                    by >= 1,
            ;
        }
    }
}

} // verus!
