//! How much a template holds, and how texts are escaped.
use crate::document;
use crate::dsl::tile_ops;
use crate::dsl::tile_ops::{HoleSourceV, OpV, RepeatV, ShapeV};
use vstd::prelude::*;

verus! {

/// How much larger than any code the codes are that `n` bytes hold: seven
/// bits in one byte, and five times the number of bytes and one more in
/// several.
pub open spec fn beyond(n: nat) -> nat {
    if n == 1 {
        vstd::arithmetic::power2::pow2(7)
    } else {
        vstd::arithmetic::power2::pow2((5 * n + 1) as nat)
    }
}

/// A character takes the fewest bytes that hold its code.
pub proof fn law_character_bytes(c: char)
    ensures
        ({
            let n = tile_ops::char_bytes(c);
            &&& 1 <= n <= 4
            &&& (c as nat) < beyond(n)
            &&& n > 1 ==> c as nat >= beyond((n - 1) as nat)
        }),
{
    vstd::arithmetic::power2::lemma2_to64();
}

/// The bytes of two texts are those of the one and those of the other. A
/// text has as many bytes as characters exactly where each is of the first
/// hundred and twenty-eight, and never fewer.
pub proof fn law_text_bytes(a: Seq<char>, b: Seq<char>)
    ensures
        tile_ops::text_bytes(a + b) == tile_ops::text_bytes(a) + tile_ops::text_bytes(b),
        tile_ops::text_bytes(b) >= b.len(),
        tile_ops::text_bytes(b) == b.len() <==> forall|i: int|
            0 <= i < b.len() ==> (#[trigger] b[i] as int) < 128,
    decreases b.len(),
{
    if b.len() == 0 {
        assert(a + b =~= a);
    } else {
        let front = b.drop_last();
        law_text_bytes(a, front);
        assert((a + b).drop_last() =~= a + front);
        assert(b[b.len() - 1] == b.last());
        if forall|i: int| 0 <= i < b.len() ==> (#[trigger] b[i] as int) < 128 {
            assert forall|i: int| 0 <= i < front.len() implies (#[trigger] front[i] as int)
                < 128 by {
                assert(front[i] == b[i]);
            }
        }
        if tile_ops::text_bytes(b) == b.len() {
            assert forall|i: int| 0 <= i < b.len() implies (#[trigger] b[i] as int) < 128 by {
                if i < front.len() {
                    assert(front[i] == b[i]);
                }
            }
        }
    }
}

/// What two runs of steps hold is what the one holds and what the other
/// holds.
pub proof fn law_shapes_joined(a: Seq<OpV>, b: Seq<OpV>)
    ensures
        tile_ops::shape_of(a + b) == tile_ops::shape_of(a).plus(tile_ops::shape_of(b)),
    decreases b.len(),
{
    if b.len() == 0 {
        assert(a + b =~= a);
        assert(tile_ops::shape_of(b) == ShapeV::zero());
    } else {
        law_shapes_joined(a, b.drop_last());
        assert((a + b).drop_last() =~= a + b.drop_last());
        assert((a + b).last() == b.last());
    }
}

/// Text counts as one static of so many bytes, a hole as one hole; a branch
/// holds what both of its runs hold and is one branch more, a projection
/// what its run holds and is one projection more.
pub proof fn law_shape(
    s: Seq<char>,
    h: HoleSourceV,
    yes: Seq<OpV>,
    no: Seq<OpV>,
    r: RepeatV,
)
    ensures
        ({
            let text = tile_ops::shape_of(seq![OpV::Static(s)]);
            let hole = tile_ops::shape_of(seq![OpV::Hole(h)]);
            let branch = tile_ops::shape_of(seq![OpV::Branch(h, yes, no)]);
            let either = tile_ops::shape_of(yes + no);
            let repeat = tile_ops::shape_of(seq![OpV::Repeat(r, yes)]);
            let body = tile_ops::shape_of(yes);
            &&& text.statics == 1 && text.static_bytes == tile_ops::text_bytes(s)
            &&& text.holes == 0 && text.branches == 0 && text.projections == 0
            &&& hole.holes == 1 && hole.statics == 0 && hole.static_bytes == 0
            &&& hole.branches == 0 && hole.projections == 0
            &&& branch == (ShapeV { branches: either.branches + 1, ..either })
            &&& repeat == (ShapeV { projections: body.projections + 1, ..body })
        }),
{
    let none = Seq::<OpV>::empty();
    assert(seq![OpV::Static(s)].drop_last() =~= none);
    assert(seq![OpV::Hole(h)].drop_last() =~= none);
    assert(seq![OpV::Branch(h, yes, no)].drop_last() =~= none);
    assert(seq![OpV::Repeat(r, yes)].drop_last() =~= none);
    assert(tile_ops::shape_of(none) == ShapeV::zero());
    law_shapes_joined(yes, no);
    let x = seq![OpV::Static(s)];
    let y = seq![OpV::Hole(h)];
    let z = seq![OpV::Branch(h, yes, no)];
    let w = seq![OpV::Repeat(r, yes)];
    assert(tile_ops::shape_of(x) == ShapeV::zero().plus(tile_ops::op_shape(x.last())));
    assert(tile_ops::shape_of(y) == ShapeV::zero().plus(tile_ops::op_shape(y.last())));
    assert(tile_ops::shape_of(z) == ShapeV::zero().plus(tile_ops::op_shape(z.last())));
    assert(tile_ops::shape_of(w) == ShapeV::zero().plus(tile_ops::op_shape(w.last())));
}

// ---------------------------------------------------------------------
// JSON strings
// ---------------------------------------------------------------------

/// The number that a hexadecimal digit stands for.
pub open spec fn hex_value(c: char) -> int {
    let n = c as int;
    if 48 <= n <= 57 {
        n - 48
    } else {
        n - 87
    }
}

/// The character that a letter behind a backslash stands for.
pub open spec fn short_escape(e: char) -> Option<int> {
    if e == '"' || e == '\\' {
        Some(e as int)
    } else if e == 'b' {
        Some(8)
    } else if e == 't' {
        Some(9)
    } else if e == 'n' {
        Some(10)
    } else if e == 'f' {
        Some(12)
    } else if e == 'r' {
        Some(13)
    } else {
        None
    }
}

/// Whether `t` is read in a JSON string as the one character `c`: as the
/// character itself where it is no quote, no backslash and not below the
/// space, by a letter behind a backslash, or by four hexadecimal digits.
pub open spec fn read_as(t: Seq<char>, c: char) -> bool {
    ||| t.len() == 1 && t[0] == c && c != '"' && c != '\\' && c as int >= 32
    ||| t.len() == 2 && t[0] == '\\' && short_escape(t[1]) == Some(c as int)
    ||| t.len() == 6 && t[0] == '\\' && t[1] == 'u' && c as int == ((hex_value(t[2]) * 16
        + hex_value(t[3])) * 16 + hex_value(t[4])) * 16 + hex_value(t[5])
}

/// Whether `t` is read in a JSON string as the text `s`, character by
/// character.
pub open spec fn reads_as(t: Seq<char>, s: Seq<char>) -> bool
    decreases s.len(),
{
    if s.len() == 0 {
        t.len() == 0
    } else {
        exists|k: int|
            #![trigger t.take(k)]
            0 <= k <= t.len() && reads_as(t.take(k), s.drop_last()) && read_as(t.skip(k), s.last())
    }
}

/// What stands for a character in a JSON string is read as that character.
pub proof fn law_json_character(c: char)
    ensures
        read_as(document::json_char(c), c),
{
    let n = c as int;
    if n < 32 && n != 8 && n != 9 && n != 10 && n != 12 && n != 13 {
        let a = n / 16;
        let b = n % 16;
        assert(0 <= a < 2);
        assert(0 <= b < 16);
        assert(hex_value(document::hex_char(a)) == a);
        assert(hex_value(document::hex_char(b)) == b);
        assert(hex_value('0') == 0);
    }
}

/// What stands for a text in a JSON string is read as that text.
pub proof fn law_json_reads_back(s: Seq<char>)
    ensures
        reads_as(document::json_chars(s), s),
    decreases s.len(),
{
    if s.len() > 0 {
        law_json_reads_back(s.drop_last());
        law_json_character(s.last());
        let a = document::json_chars(s.drop_last());
        let b = document::json_char(s.last());
        let t = document::json_chars(s);
        assert(t.take(a.len() as int) =~= a);
        assert(t.skip(a.len() as int) =~= b);
    }
}

} // verus!
