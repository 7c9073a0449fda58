//! What the rules on constants ask, and what values count as.
use crate::chars;
use crate::comprehension::ir::comparison_laws;
use crate::comprehension::ir::comparison_laws::double_value;
use crate::dsl::ast::ExprV;
use crate::dsl::compile;
use crate::dsl::const_constraints;
use crate::dsl::const_constraints::ConstConstraint;
use crate::dsl::embedding;
use crate::dsl::embedding::{EmbeddingErrorV, HostType, TypedV};
use crate::dsl::factory::ConstV;
use crate::dsl::stub;
use crate::float;
use crate::float::Float64;
use crate::value::{DatumV, PortType};
use vstd::prelude::*;

verus! {

/// A rule on whole numbers is kept by exactly the numbers that it names.
pub proof fn law_integer_rules(n: u64, min: u64, max: u64, format: Result<(), Seq<char>>)
    ensures
        const_constraints::broken(
            ConstConstraint::RangeU64 { min, max },
            ConstV::Int(n),
            format,
        ) is None <==> min <= n <= max,
        const_constraints::broken(ConstConstraint::NonZeroU64, ConstV::Int(n), format) is None
            <==> n > 0,
{
}

/// A closed set is kept by exactly its members.
pub proof fn law_closed_set(allowed: &'static [u64], n: u64, format: Result<(), Seq<char>>)
    ensures
        const_constraints::broken(
            ConstConstraint::AllowedU64(allowed),
            ConstV::Int(n),
            format,
        ) is None <==> exists|i: int| 0 <= i < allowed@.len() && allowed@[i] == n,
{
    if allowed@.contains(n) {
        let i = choose|i: int| 0 <= i < allowed@.len() && allowed@[i] == n;
        assert(allowed@[i] == n);
    }
}

/// A rule on doubles is kept by exactly the doubles whose values it names:
/// those between its bounds, those above zero, or those that are finite. A
/// whole number counts as the double nearest to it.
pub proof fn law_double_rules(
    x: Float64,
    min: Float64,
    max: Float64,
    format: Result<(), Seq<char>>,
)
    requires
        !min.nan(),
        !max.nan(),
    ensures
        const_constraints::broken(
            ConstConstraint::RangeF64 { min, max },
            ConstV::Float(x),
            format,
        ) is None <==> !x.nan() && double_value(min) <= double_value(x) <= double_value(max),
        const_constraints::broken(ConstConstraint::PositiveFiniteF64, ConstV::Float(x), format)
            is None <==> x.finite() && double_value(x) > 0,
        const_constraints::broken(ConstConstraint::FiniteF64, ConstV::Float(x), format) is None
            <==> x.finite(),
{
    let zero = Float64 { bits: 0 };
    assert(float::units(0) == 0);
    assert(double_value(zero) == 0);
    if !x.nan() {
        comparison_laws::law_double_order(min, x);
        comparison_laws::law_double_order(x, max);
        comparison_laws::law_double_order(x, zero);
    }
}

/// A text rule is kept by exactly the texts with a character that is no
/// white space.
pub proof fn law_text_rule(s: Seq<char>, format: Result<(), Seq<char>>)
    ensures
        const_constraints::broken(ConstConstraint::NonEmptyStr, ConstV::Str(s), format) is None
            <==> exists|i: int| 0 <= i < s.len() && !chars::is_space(#[trigger] s[i]),
{
    lemma_blank(s);
}

proof fn lemma_blank(s: Seq<char>)
    ensures
        chars::trim(s).len() == 0 <==> forall|i: int|
            0 <= i < s.len() ==> chars::is_space(#[trigger] s[i]),
    decreases s.len(),
{
    if s.len() > 0 {
        if chars::is_space(s[0]) {
            let rest = s.drop_first();
            lemma_blank(rest);
            assert(chars::trim(s) == chars::trim(rest));
            if forall|i: int| 0 <= i < rest.len() ==> chars::is_space(#[trigger] rest[i]) {
                assert forall|i: int| 0 <= i < s.len() implies chars::is_space(#[trigger] s[i]) by {
                    if i > 0 {
                        assert(s[i] == rest[i - 1]);
                    }
                }
            } else {
                let i = choose|i: int| 0 <= i < rest.len() && !chars::is_space(#[trigger] rest[i]);
                assert(!chars::is_space(s[i + 1]));
            }
        } else {
            chars::lemma_trim_end_first(s);
        }
    }
}

/// A number counts as true exactly when its value is not zero; a truth
/// value counts as itself.
pub proof fn law_what_counts_as_true(n: u64, b: bool, x: Float64)
    requires
        !x.nan(),
    ensures
        stub::truthy(DatumV::U64(n)) <==> n != 0,
        stub::truthy(DatumV::Bool(b)) <==> b,
        stub::truthy(DatumV::F64(x)) <==> double_value(x) != 0,
{
    let m = float::magnitude(x.bits) as u64;
    assert(float::units(0) == 0);
    if m > 0 {
        float::lemma_units_grow(0, m);
    }
}

/// What a host wrote it reads back as it was.
pub proof fn law_host_values_read_back(
    b: bool,
    n: u64,
    x: Float64,
    s: String,
    port: PortType,
    text: Seq<char>,
)
    ensures
        bool::read(TypedV { value: b.shown(), port }, text) == Ok::<DatumV, EmbeddingErrorV>(
            b.shown(),
        ),
        u64::read(TypedV { value: n.shown(), port }, text) == Ok::<DatumV, EmbeddingErrorV>(
            n.shown(),
        ),
        Float64::read(TypedV { value: x.shown(), port }, text) == Ok::<DatumV, EmbeddingErrorV>(
            x.shown(),
        ),
        String::read(TypedV { value: s.shown(), port }, text) == Ok::<DatumV, EmbeddingErrorV>(
            s.shown(),
        ),
        embedding::port_of(TypedV { value: b.shown(), port }) == bool::port(),
        embedding::port_of(TypedV { value: n.shown(), port }) == u64::port(),
        embedding::port_of(TypedV { value: x.shown(), port }) == Float64::port(),
        embedding::port_of(TypedV { value: s.shown(), port }) == String::port(),
{
}

/// A host that reads a whole number gets what the number counts as: whether
/// it is not zero, the number, the double nearest to it, or its digits.
pub proof fn law_host_reads_integers(n: u64, port: PortType, text: Seq<char>)
    ensures
        bool::read(TypedV { value: DatumV::U64(n), port }, text) == Ok::<DatumV, EmbeddingErrorV>(
            DatumV::Bool(n > 0),
        ),
        u64::read(TypedV { value: DatumV::U64(n), port }, text) == Ok::<DatumV, EmbeddingErrorV>(
            DatumV::U64(n),
        ),
        Float64::read(TypedV { value: DatumV::U64(n), port }, text) matches Ok(DatumV::F64(x))
            && float::nearest(x.bits, n as nat * float::one_in_units(), 1),
        String::read(TypedV { value: DatumV::U64(n), port }, text) matches Ok(DatumV::Str(s))
            && chars::read_u64(s) == Some(n),
{
    float::lemma_rounded_nearest(n as nat * float::one_in_units(), 1);
    chars::law_decimal_reads_back(n);
}

/// No host reads what is not there.
pub proof fn law_nothing_is_not_read(port: PortType, text: Seq<char>)
    ensures
        bool::read(TypedV { value: DatumV::Nothing, port }, text) matches Err(e)
            && e is NonePropagated,
        u64::read(TypedV { value: DatumV::Nothing, port }, text) matches Err(e)
            && e is NonePropagated,
        Float64::read(TypedV { value: DatumV::Nothing, port }, text) matches Err(e)
            && e is NonePropagated,
        String::read(TypedV { value: DatumV::Nothing, port }, text) matches Err(e)
            && e is NonePropagated,
{
}

/// A written value has the type that it is taken to have, as a cell and as
/// a default; a whole number may stand for a double.
pub proof fn law_written_values(e: ExprV)
    ensures
        compile::literal_value(e) matches Some((v, port)) ==> {
            &&& embedding::datum_port(v) == Some(port)
            &&& compile::default_value(e, port) == Ok::<DatumV, Seq<char>>(v)
        },
        e matches ExprV::IntLit(n, _) ==> {
            &&& compile::literal_value(e) == Some((DatumV::U64(n), PortType::U64))
            &&& compile::default_value(e, PortType::F64) matches Ok(DatumV::F64(x))
                && float::nearest(x.bits, n as nat * float::one_in_units(), 1)
        },
        e matches ExprV::StringLit(s, _) ==> compile::literal_value(e) == Some(
            (DatumV::Str(s), PortType::Str),
        ),
{
    match e {
        ExprV::IntLit(n, _) => float::lemma_rounded_nearest(n as nat * float::one_in_units(), 1),
        _ => {},
    }
}

} // verus!
