//! What messages are read as, which conversions keep a value, and which of
//! several answers counts.
use crate::chars;
use crate::dsl::ast::{BinOpKind, StatementV};
use crate::dsl::catalog;
use crate::dsl::catalog::Function;
use crate::dsl::compiler::Toolbox;
use crate::dsl::cursor_sugar;
use crate::dsl::cursor_sugar::SugarV;
use crate::dsl::debug;
use crate::dsl::diagnostics;
use crate::dsl::diagnostics::DiagnosticV;
use crate::dsl::embedding;
use crate::dsl::embedding::EmbeddingErrorV;
use crate::value;
use crate::value::PortType;
use vstd::prelude::*;

verus! {

proof fn lemma_quote(s: Seq<char>, from: int, end: int)
    requires
        0 <= from <= end < s.len(),
        s[end] == '\'',
        forall|i: int| from <= i < end ==> #[trigger] s[i] != '\'',
    ensures
        embedding::quote_at(s, from) == Some(end),
    decreases end - from,
{
    if from < end {
        assert(s[from] != '\'');
        lemma_quote(s, from + 1, end);
    }
}

/// A message on an unknown function is read back as the function that it
/// names, whatever follows.
pub proof fn law_unknown_function_is_named(
    source: Seq<char>,
    name: Seq<char>,
    rest: Seq<char>,
)
    requires
        forall|i: int| 0 <= i < name.len() ==> #[trigger] name[i] != '\'',
    ensures
        embedding::classified(source, "unknown function: '"@ + name + "'"@ + rest)
            == EmbeddingErrorV::UnknownNode(name, source, None),
{
    reveal_strlit("unknown function: '");
    reveal_strlit("'");
    reveal_strlit("not a const expression");
    let lead = "unknown function: '"@;
    let msg = lead + name + "'"@ + rest;
    let n = lead.len() as int;
    let end = n + name.len();
    assert(msg[0] == 'u');
    assert("not a const expression"@[0] == 'n');
    assert(!chars::begins(msg, "not a const expression"@)) by {
        if chars::begins(msg, "not a const expression"@) {
            assert(msg.subrange(0, "not a const expression"@.len() as int)[0] == msg[0]);
        }
    }
    assert(msg.subrange(0, n) =~= lead);
    assert(msg[end] == '\'');
    assert forall|i: int| n <= i < end implies #[trigger] msg[i] != '\'' by {
        assert(msg[i] == name[i - n]);
    }
    lemma_quote(msg, n, end);
    assert(msg.subrange(n, end) =~= name);
}

/// A message on a run-time value is of that kind, and one that is none of
/// the known kinds is kept as it is.
pub proof fn law_other_messages(source: Seq<char>, rest: Seq<char>, msg: Seq<char>)
    ensures
        embedding::classified(source, "not a const expression"@ + rest)
            == EmbeddingErrorV::LifecycleMismatch(source, Seq::empty()),
        !chars::begins(msg, "not a const expression"@) && !chars::begins(
            msg,
            "unknown function: '"@,
        ) ==> if chars::occurs(msg, "type mismatch"@) {
            embedding::classified(source, msg) is TypeMismatch
        } else {
            embedding::classified(source, msg) == EmbeddingErrorV::Parse(source, msg, None)
        },
{
    let lead = "not a const expression"@;
    let m = lead + rest;
    assert(m.subrange(0, lead.len() as int) =~= lead);
}

// ---------------------------------------------------------------------
// Conversions
// ---------------------------------------------------------------------

/// The whole numbers that a type holds, from the least to the largest.
pub open spec fn numbers(t: PortType) -> Option<(int, int)> {
    match t {
        PortType::Bool => Some((0, 1)),
        PortType::U8 => Some((0, u8::MAX as int)),
        PortType::U16 => Some((0, u16::MAX as int)),
        PortType::U32 => Some((0, u32::MAX as int)),
        PortType::U64 => Some((0, u64::MAX as int)),
        PortType::U128 => Some((0, u128::MAX as int)),
        PortType::I8 => Some((i8::MIN as int, i8::MAX as int)),
        PortType::I16 => Some((i16::MIN as int, i16::MAX as int)),
        PortType::I32 => Some((i32::MIN as int, i32::MAX as int)),
        PortType::I64 => Some((i64::MIN as int, i64::MAX as int)),
        PortType::I128 => Some((i128::MIN as int, i128::MAX as int)),
        _ => None,
    }
}

/// Between types of whole numbers only a conversion to a type that holds
/// every number of the other, and more, counts as one that keeps all of the
/// value; a number of thirty-two bits or a truth value has one to the type
/// of sixty-four bits. Everything has one to a text, a text to nothing else,
/// and a double to nothing but a text.
pub proof fn law_what_keeps_a_value(from: PortType, to: PortType)
    ensures
        numbers(from) is Some && numbers(to) is Some && embedding::lossless(from, to) ==> numbers(
            to,
        )->Some_0.0 <= numbers(from)->Some_0.0 && numbers(from)->Some_0.1 < numbers(
            to,
        )->Some_0.1,
        embedding::lossless(PortType::U32, PortType::U64),
        embedding::lossless(PortType::I32, PortType::I64),
        embedding::lossless(PortType::Bool, PortType::U64),
        embedding::lossless(from, PortType::Str),
        embedding::lossless(PortType::Str, to) ==> to is Str,
        embedding::lossless(PortType::F64, to) ==> to is Str,
        to is F64 && embedding::lossless(from, to) <==> to is F64 && (from is F32 || from is U32
            || from is I32 || from is U64 || from is I64),
{
}

// ---------------------------------------------------------------------
// Which answer counts
// ---------------------------------------------------------------------

/// The answer that counts is the first that is not silence; where all are
/// silent, so is the whole.
pub proof fn law_first_answer_counts(s: Seq<Result<Option<SugarV>, Seq<char>>>, i: int)
    requires
        0 <= i <= s.len(),
        forall|j: int| 0 <= j < i ==> #[trigger] s[j] == Ok::<Option<SugarV>, Seq<char>>(None),
    ensures
        i < s.len() && s[i] != Ok::<Option<SugarV>, Seq<char>>(None) ==> cursor_sugar::first_match(s)
            == s[i],
        i == s.len() ==> cursor_sugar::first_match(s) == Ok::<Option<SugarV>, Seq<char>>(None),
    decreases s.len(),
{
    if i > 0 {
        let rest = s.drop_first();
        assert(s[0] == Ok::<Option<SugarV>, Seq<char>>(None));
        assert forall|j: int| 0 <= j < i - 1 implies #[trigger] rest[j] == Ok::<
            Option<SugarV>,
            Seq<char>,
        >(None) by {
            assert(rest[j] == s[j + 1]);
        }
        law_first_answer_counts(rest, i - 1);
    }
}

/// A function is the first of its name.
pub proof fn law_first_function_counts(s: Seq<Function>, name: Seq<char>)
    ensures
        match catalog::place_of(s, name) {
            Some(i) => 0 <= i < s.len() && s[i].sig.name@ == name && forall|j: int|
                0 <= j < i ==> (#[trigger] s[j]).sig.name@ != name,
            None => forall|j: int| 0 <= j < s.len() ==> (#[trigger] s[j]).sig.name@ != name,
        },
    decreases s.len(),
{
    if s.len() > 0 {
        let front = s.drop_last();
        law_first_function_counts(front, name);
        match catalog::place_of(front, name) {
            Some(i) => {
                assert(front[i] == s[i]);
                assert forall|j: int| 0 <= j < i implies (#[trigger] s[j]).sig.name@ != name by {
                    assert(front[j] == s[j]);
                }
            },
            None => {
                assert forall|j: int| 0 <= j < front.len() implies (#[trigger] s[j]).sig.name@
                    != name by {
                    assert(front[j] == s[j]);
                }
            },
        }
    }
}

/// A program is lowered exactly where nothing that is found is an error;
/// what a look at the program brought up is told in any case, unless it
/// could not be read.
pub proof fn law_lowered_without_errors<T: Toolbox>(
    t: T,
    parsed: Result<Seq<StatementV>, Seq<char>>,
    findings: Seq<DiagnosticV>,
)
    ensures
        ({
            let (state, told) = diagnostics::checked(t, parsed, findings);
            &&& state is Some <==> !diagnostics::faulty(told)
            &&& parsed is Ok ==> findings.len() <= told.len() && told.take(findings.len() as int)
                == findings
            &&& parsed is Err ==> told.len() == 1 && told[0].message == parsed->Err_0
        }),
{
    let (state, told) = diagnostics::checked(t, parsed, findings);
    match parsed {
        Err(e) => {
            assert(told[0].severity == diagnostics::Severity::Error);
        },
        Ok(stmts) => {
            assert(told.take(findings.len() as int) =~= findings);
            if state is None && !diagnostics::faulty(findings) {
                assert(told.len() == findings.len() + 1);
                assert(told[findings.len() as int].severity == diagnostics::Severity::Error);
            }
        },
    }
}

// ---------------------------------------------------------------------
// Names in messages
// ---------------------------------------------------------------------

/// What tells the printed operators apart: the length, the first two
/// characters and the last.
spec fn print_mark(s: Seq<char>) -> (nat, char, char, char) {
    (s.len(), s[0], s[1], s.last())
}

/// Two different operators never print alike.
pub proof fn law_operators_print_apart(a: BinOpKind, b: BinOpKind)
    requires
        debug::op_text(a) == debug::op_text(b),
    ensures
        a == b,
{
    reveal_strlit("Add");
    reveal_strlit("Sub");
    reveal_strlit("Mul");
    reveal_strlit("Div");
    reveal_strlit("Mod");
    reveal_strlit("Pow");
    reveal_strlit("BitAnd");
    reveal_strlit("BitOr");
    reveal_strlit("BitXor");
    reveal_strlit("Shl");
    reveal_strlit("Shr");
    reveal_strlit("Eq");
    reveal_strlit("Ne");
    reveal_strlit("Lt");
    reveal_strlit("Gt");
    reveal_strlit("Le");
    reveal_strlit("Ge");
    reveal_strlit("And");
    reveal_strlit("Or");
    assert(print_mark("Add"@) == (3nat, 'A', 'd', 'd'));
    assert(print_mark("Sub"@) == (3nat, 'S', 'u', 'b'));
    assert(print_mark("Mul"@) == (3nat, 'M', 'u', 'l'));
    assert(print_mark("Div"@) == (3nat, 'D', 'i', 'v'));
    assert(print_mark("Mod"@) == (3nat, 'M', 'o', 'd'));
    assert(print_mark("Pow"@) == (3nat, 'P', 'o', 'w'));
    assert(print_mark("BitAnd"@) == (6nat, 'B', 'i', 'd'));
    assert(print_mark("BitOr"@) == (5nat, 'B', 'i', 'r'));
    assert(print_mark("BitXor"@) == (6nat, 'B', 'i', 'r'));
    assert(print_mark("Shl"@) == (3nat, 'S', 'h', 'l'));
    assert(print_mark("Shr"@) == (3nat, 'S', 'h', 'r'));
    assert(print_mark("Eq"@) == (2nat, 'E', 'q', 'q'));
    assert(print_mark("Ne"@) == (2nat, 'N', 'e', 'e'));
    assert(print_mark("Lt"@) == (2nat, 'L', 't', 't'));
    assert(print_mark("Gt"@) == (2nat, 'G', 't', 't'));
    assert(print_mark("Le"@) == (2nat, 'L', 'e', 'e'));
    assert(print_mark("Ge"@) == (2nat, 'G', 'e', 'e'));
    assert(print_mark("And"@) == (3nat, 'A', 'n', 'd'));
    assert(print_mark("Or"@) == (2nat, 'O', 'r', 'r'));
    assert(print_mark(debug::op_text(a)) == print_mark(debug::op_text(b)));
}

/// The name of a type in messages is its keyword with a capital letter; of a
/// register with lanes, the keyword has the lanes behind a line.
pub proof fn law_type_names(t: PortType)
    ensures
        ({
            let name = value::port_name(t);
            let kw = value::port_keyword(t);
            ||| chars::lowered(name) == kw
            ||| name.len() > 6 && kw == chars::lowered(name.take(3)) + seq!['_'] + chars::lowered(
                name.skip(3),
            )
        }),
{
    match t {
        PortType::U64 => {
            reveal_strlit("U64");
            reveal_strlit("u64");
            assert(chars::lowered("U64"@) =~= "u64"@);
        },
        PortType::I64 => {
            reveal_strlit("I64");
            reveal_strlit("i64");
            assert(chars::lowered("I64"@) =~= "i64"@);
        },
        PortType::F64 => {
            reveal_strlit("F64");
            reveal_strlit("f64");
            assert(chars::lowered("F64"@) =~= "f64"@);
        },
        PortType::U32 => {
            reveal_strlit("U32");
            reveal_strlit("u32");
            assert(chars::lowered("U32"@) =~= "u32"@);
        },
        PortType::I32 => {
            reveal_strlit("I32");
            reveal_strlit("i32");
            assert(chars::lowered("I32"@) =~= "i32"@);
        },
        PortType::F32 => {
            reveal_strlit("F32");
            reveal_strlit("f32");
            assert(chars::lowered("F32"@) =~= "f32"@);
        },
        PortType::U16 => {
            reveal_strlit("U16");
            reveal_strlit("u16");
            assert(chars::lowered("U16"@) =~= "u16"@);
        },
        PortType::I16 => {
            reveal_strlit("I16");
            reveal_strlit("i16");
            assert(chars::lowered("I16"@) =~= "i16"@);
        },
        PortType::U8 => {
            reveal_strlit("U8");
            reveal_strlit("u8");
            assert(chars::lowered("U8"@) =~= "u8"@);
        },
        PortType::I8 => {
            reveal_strlit("I8");
            reveal_strlit("i8");
            assert(chars::lowered("I8"@) =~= "i8"@);
        },
        PortType::F16 => {
            reveal_strlit("F16");
            reveal_strlit("f16");
            assert(chars::lowered("F16"@) =~= "f16"@);
        },
        PortType::U128 => {
            reveal_strlit("U128");
            reveal_strlit("u128");
            assert(chars::lowered("U128"@) =~= "u128"@);
        },
        PortType::I128 => {
            reveal_strlit("I128");
            reveal_strlit("i128");
            assert(chars::lowered("I128"@) =~= "i128"@);
        },
        PortType::Bool => {
            reveal_strlit("Bool");
            reveal_strlit("bool");
            assert(chars::lowered("Bool"@) =~= "bool"@);
        },
        PortType::Str => {
            reveal_strlit("Str");
            reveal_strlit("str");
            assert(chars::lowered("Str"@) =~= "str"@);
        },
        PortType::Bytes => {
            reveal_strlit("Bytes");
            reveal_strlit("bytes");
            assert(chars::lowered("Bytes"@) =~= "bytes"@);
        },
        PortType::Json => {
            reveal_strlit("Json");
            reveal_strlit("json");
            assert(chars::lowered("Json"@) =~= "json"@);
        },
        PortType::Ext => {
            reveal_strlit("Ext");
            reveal_strlit("ext");
            assert(chars::lowered("Ext"@) =~= "ext"@);
        },
        PortType::Handle => {
            reveal_strlit("Handle");
            reveal_strlit("handle");
            assert(chars::lowered("Handle"@) =~= "handle"@);
        },
        PortType::Reg128 => {
            reveal_strlit("Reg128");
            reveal_strlit("reg128");
            assert(chars::lowered("Reg128"@) =~= "reg128"@);
        },
        PortType::RegI8x16 => {
            reveal_strlit("RegI8x16");
            reveal_strlit("reg_i8x16");
            let name = "RegI8x16"@;
            assert(chars::lowered(name.take(3)) + seq!['_'] + chars::lowered(name.skip(3))
                =~= "reg_i8x16"@);
        },
        PortType::RegI16x8 => {
            reveal_strlit("RegI16x8");
            reveal_strlit("reg_i16x8");
            let name = "RegI16x8"@;
            assert(chars::lowered(name.take(3)) + seq!['_'] + chars::lowered(name.skip(3))
                =~= "reg_i16x8"@);
        },
        PortType::RegI32x4 => {
            reveal_strlit("RegI32x4");
            reveal_strlit("reg_i32x4");
            let name = "RegI32x4"@;
            assert(chars::lowered(name.take(3)) + seq!['_'] + chars::lowered(name.skip(3))
                =~= "reg_i32x4"@);
        },
        PortType::RegI64x2 => {
            reveal_strlit("RegI64x2");
            reveal_strlit("reg_i64x2");
            let name = "RegI64x2"@;
            assert(chars::lowered(name.take(3)) + seq!['_'] + chars::lowered(name.skip(3))
                =~= "reg_i64x2"@);
        },
        PortType::RegF16x8 => {
            reveal_strlit("RegF16x8");
            reveal_strlit("reg_f16x8");
            let name = "RegF16x8"@;
            assert(chars::lowered(name.take(3)) + seq!['_'] + chars::lowered(name.skip(3))
                =~= "reg_f16x8"@);
        },
        PortType::RegF32x4 => {
            reveal_strlit("RegF32x4");
            reveal_strlit("reg_f32x4");
            let name = "RegF32x4"@;
            assert(chars::lowered(name.take(3)) + seq!['_'] + chars::lowered(name.skip(3))
                =~= "reg_f32x4"@);
        },
        PortType::RegF64x2 => {
            reveal_strlit("RegF64x2");
            reveal_strlit("reg_f64x2");
            let name = "RegF64x2"@;
            assert(chars::lowered(name.take(3)) + seq!['_'] + chars::lowered(name.skip(3))
                =~= "reg_f64x2"@);
        },
    }
}

} // verus!
