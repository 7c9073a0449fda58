//! What cursors run over.
use crate::dsl::ast::{ArgV, CursorDeclV, ExprV, Span};
use crate::dsl::compile;
use crate::dsl::compiler::{CompilerV, Toolbox};
use crate::dsl::cursor;
use crate::dsl::operation_laws::values;
use crate::dsl::schema::{DeferredV, SchemaV};
use crate::value::PortType;
use vstd::prelude::*;

verus! {

/// The smaller of a number and a limit, if there is one.
pub open spec fn at_most_limit(n: int, limit: Option<u64>) -> int {
    match limit {
        Some(l) => if n <= l {
            n
        } else {
            l as int
        },
        None => n,
    }
}

/// How many whole numbers there are from one on and before another.
pub open spec fn numbers_between(from: int, to: int) -> int {
    if from < to {
        to - from
    } else {
        0
    }
}

/// A cursor over a range of written numbers is recorded last, under its
/// name, with as many steps as there are numbers in the range, but no more
/// than the limit.
pub proof fn law_range_cursor<T: Toolbox>(
    t: T,
    c: CompilerV,
    name: Seq<char>,
    from: u64,
    to: u64,
    span: Span,
)
    requires
        ({
            let args = seq![
                ArgV { name: None, value: ExprV::IntLit(from, span) },
                ArgV { name: None, value: ExprV::IntLit(to, span) },
            ];
            t.rewritten(name, ExprV::Call("range"@, args, span)) == Ok::<
                Option<crate::dsl::cursor_sugar::SugarV>,
                Seq<char>,
            >(None)
        }),
    ensures
        ({
            let args = seq![
                ArgV { name: None, value: ExprV::IntLit(from, span) },
                ArgV { name: None, value: ExprV::IntLit(to, span) },
            ];
            let decl = CursorDeclV {
                name,
                constructor: ExprV::Call("range"@, args, span),
                over: None,
                span,
            };
            let (d, r) = cursor::cursor_lowered(t, c, decl);
            &&& r is Ok
            &&& d.schemas.len() == c.schemas.len() + 1
            &&& d.schemas.drop_last() == c.schemas
            &&& d.schemas.last().name == name
            &&& d.schemas.last().kind is Range
            &&& d.schemas.last().extent matches Some(n) && n == at_most_limit(
                numbers_between(from as int, to as int),
                c.limit,
            )
            &&& d.schemas.last().projections == seq![("ordinal"@, PortType::U64)]
            &&& d.schemas.last().partition is None
            &&& d.deferred == c.deferred
        }),
{
    reveal_strlit("range");
    reveal_strlit("until_elapsed");
    reveal_strlit("until_passes");
    reveal_strlit("until_count");
    reveal_strlit("until_elapsed_and_passes");
    reveal_strlit("until_elapsed_or_passes");
    let args = seq![
        ArgV { name: None, value: ExprV::IntLit(from, span) },
        ArgV { name: None, value: ExprV::IntLit(to, span) },
    ];
    assert("range"@.len() == 5);
    assert(cursor::family_of("range"@) is None);
    let decl = CursorDeclV {
        name,
        constructor: ExprV::Call("range"@, args, span),
        over: None,
        span,
    };
    let (d, r) = cursor::cursor_lowered(t, c, decl);
    assert(d.schemas.drop_last() =~= c.schemas);
    assert(d.schemas.last().projections =~= seq![("ordinal"@, PortType::U64)]);
}

/// The limit on an extent takes nothing from a smaller one, cuts a larger
/// one, and stands for one that is not known.
pub proof fn law_limit_on_extent(limit: Option<u64>, extent: Option<u64>)
    ensures
        limit is None ==> cursor::clamped(limit, extent) == extent,
        limit matches Some(l) ==> {
            &&& cursor::clamped(limit, extent) matches Some(n) && n <= l
            &&& extent matches Some(e) ==> cursor::clamped(limit, extent)->0 <= e && (
            cursor::clamped(limit, extent)->0 == e || cursor::clamped(limit, extent)->0 == l)
            &&& extent is None ==> cursor::clamped(limit, extent)->0 == l
        },
{
}

/// An extent that waits for the values of two outputs is found as the
/// number of steps from the one to the other, but no more than the limit;
/// the other cursors stay.
pub proof fn law_waiting_extent(
    schemas: Seq<SchemaV>,
    d: DeferredV,
    limit: Option<u64>,
    values: Seq<(Seq<char>, u64)>,
    from: u64,
    to: u64,
)
    requires
        d.place < schemas.len(),
        compile::value_of(values, d.start) == Some(from),
        compile::value_of(values, d.end) == Some(to),
    ensures
        ({
            let out = compile::resolved_extents(schemas, seq![d], limit, values);
            &&& out.len() == schemas.len()
            &&& out[d.place as int].extent matches Some(n) && n == at_most_limit(
                numbers_between(from as int, to as int),
                limit,
            )
            &&& out[d.place as int].name == schemas[d.place as int].name
            &&& out[d.place as int].kind == schemas[d.place as int].kind
            &&& forall|i: int|
                0 <= i < schemas.len() && i != d.place ==> #[trigger] out[i] == schemas[i]
        }),
{
    let one = seq![d];
    assert(one.drop_last() =~= Seq::<DeferredV>::empty());
    assert(compile::resolved_extents(schemas, one.drop_last(), limit, values) == schemas);
}

/// The value of an output is the first that is given under its name.
pub proof fn law_first_value_counts(values: Seq<(Seq<char>, u64)>, name: Seq<char>, i: int)
    requires
        0 <= i < values.len(),
        values[i].0 == name,
        forall|j: int| 0 <= j < i ==> (#[trigger] values[j]).0 != name,
    ensures
        compile::value_of(values, name) == Some(values[i].1),
    decreases i,
{
    if i > 0 {
        assert(values[0].0 != name);
        let rest = values.drop_first();
        assert forall|j: int| 0 <= j < i - 1 implies (#[trigger] rest[j]).0 != name by {
            assert(rest[j] == values[j + 1]);
        }
        law_first_value_counts(rest, name, i - 1);
    }
}

/// A cursor that goes on is of the kind that its constructor names, and
/// takes one argument for each thing that decides, after its base.
pub proof fn law_going_on_by_name(cursor_name: Seq<char>, delta: Option<Seq<char>>)
    ensures
        cursor::family_of("until_elapsed"@) matches Some(f) && cursor::kind_of(
            f,
            cursor_name,
            delta,
        ) is Timed && cursor::least_args(f) == 2,
        cursor::family_of("until_passes"@) matches Some(f) && cursor::kind_of(
            f,
            cursor_name,
            delta,
        ) is Passes && cursor::least_args(f) == 2,
        cursor::family_of("until_count"@) matches Some(f) && cursor::kind_of(
            f,
            cursor_name,
            delta,
        ) is Count && cursor::least_args(f) == 2,
        cursor::family_of("until_elapsed_and_passes"@) matches Some(f) && cursor::kind_of(
            f,
            cursor_name,
            delta,
        ) is TimedAndPasses && cursor::least_args(f) == 3,
        cursor::family_of("until_elapsed_or_passes"@) matches Some(f) && cursor::kind_of(
            f,
            cursor_name,
            delta,
        ) is TimedOrPasses && cursor::least_args(f) == 3,
{
    reveal_strlit("until_elapsed");
    reveal_strlit("until_passes");
    reveal_strlit("until_count");
    reveal_strlit("until_elapsed_and_passes");
    reveal_strlit("until_elapsed_or_passes");
    assert("until_elapsed"@.len() == 13);
    assert("until_passes"@.len() == 12);
    assert("until_count"@.len() == 11);
    assert("until_elapsed_and_passes"@.len() == 24);
    assert("until_elapsed_or_passes"@.len() == 23);
}

} // verus!
