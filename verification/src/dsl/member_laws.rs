//! Where the commas between the members of an object stand.
use crate::dsl::template::OptionsV;
use crate::dsl::tile::Grammar;
use crate::dsl::tile_structural;
use crate::dsl::tile_structural::{Comma, DirectiveV};
use crate::value::JsonV;
use vstd::prelude::*;

verus! {

// ---------------------------------------------------------------------
// The parts of an object
// ---------------------------------------------------------------------

/// A part of an object that is written as a template.
#[verifier::ext_equal]
pub enum PartV {
    /// A plain member: whether a comma leads it, and its text.
    Member(bool, Seq<char>),
    /// Members once for each tuple: the header, where the comma goes, and
    /// the members.
    Repeated(Seq<char>, Comma, Seq<char>),
    /// Members or others: the condition, where the comma goes, the members,
    /// and the others.
    Chosen(Seq<char>, Comma, Seq<char>, Option<Seq<char>>),
}

/// The members of a directive with their comma.
pub open spec fn with_comma(comma: Comma, body: Seq<char>) -> Seq<char> {
    match comma {
        Comma::Leading => ", "@ + body,
        Comma::Trailing => body + ", "@,
        Comma::Sep => body,
    }
}

/// How a part is written.
pub open spec fn part_text(p: PartV, o: OptionsV) -> Seq<char> {
    match p {
        PartV::Member(led, text) => (if led {
            ", "@
        } else {
            ""@
        }) + text,
        PartV::Repeated(header, comma, body) => o.sigil + "for "@ + header + (if comma
            == Comma::Sep {
            ""@
        } else {
            " sep \"\""@
        }) + " { "@ + with_comma(comma, body) + " }"@,
        PartV::Chosen(cond, comma, yes, otherwise) => {
            let first = o.sigil + "if "@ + cond + " { "@ + with_comma(comma, yes) + " }"@;
            match otherwise {
                Some(no) => first + " "@ + o.sigil + "else { "@ + with_comma(comma, no) + " }"@,
                None => first,
            }
        },
    }
}

/// How a run of parts is written.
pub open spec fn parts_text(ps: Seq<PartV>, o: OptionsV) -> Seq<char>
    decreases ps.len(),
{
    if ps.len() == 0 {
        Seq::empty()
    } else {
        part_text(ps[0], o) + parts_text(ps.drop_first(), o)
    }
}

/// A part before others, where there is nothing wrong with those.
pub open spec fn behind(p: PartV, rest: Result<Seq<PartV>, Seq<char>>) -> Result<
    Seq<PartV>,
    Seq<char>,
> {
    match rest {
        Err(e) => Err(e),
        Ok(ps) => Ok(seq![p] + ps),
    }
}

/// The members under a directive, without a comma.
pub open spec fn body_of<G: Grammar>(g: G, key: Seq<char>, v: JsonV, o: OptionsV) -> Result<
    Seq<char>,
    Seq<char>,
> {
    tile_structural::members_text(g, key, v, Comma::Sep, o)
}

/// The parts of an object from member `i` on; `before` says that a plain
/// member stands before it.
pub open spec fn parts_from<G: Grammar>(
    g: G,
    s: Seq<(Seq<char>, JsonV)>,
    o: OptionsV,
    i: int,
    before: bool,
) -> Result<Seq<PartV>, Seq<char>>
    decreases s.len() - i,
{
    if i < 0 || i >= s.len() {
        Ok(Seq::empty())
    } else {
        let (key, v) = s[i];
        let comma = tile_structural::comma_of(before, tile_structural::more_after(s, o, i + 1));
        match tile_structural::directive(key, o) {
            Some(DirectiveV::For(header)) => match body_of(g, key, v, o) {
                Err(e) => Err(e),
                Ok(b) => behind(
                    PartV::Repeated(header, comma, b),
                    parts_from(g, s, o, i + 1, before),
                ),
            },
            Some(DirectiveV::If(cond)) => match body_of(g, key, v, o) {
                Err(e) => Err(e),
                Ok(b) => if i + 1 < s.len() && tile_structural::directive(s[i + 1].0, o) == Some(
                    DirectiveV::Else,
                ) {
                    match body_of(g, s[i + 1].0, s[i + 1].1, o) {
                        Err(e) => Err(e),
                        Ok(c) => behind(
                            PartV::Chosen(cond, comma, b, Some(c)),
                            parts_from(g, s, o, i + 2, before),
                        ),
                    }
                } else {
                    behind(
                        PartV::Chosen(cond, comma, b, None),
                        parts_from(g, s, o, i + 1, before),
                    )
                },
            },
            Some(DirectiveV::Else) => Err(
                "`"@ + o.sigil + "else` key without a preceding `"@ + o.sigil + "if` key"@,
            ),
            None => match tile_structural::string_text(g, key, true, o) {
                Err(e) => Err(e),
                Ok(k) => match tile_structural::value_text(g, v, o) {
                    Err(e) => Err(e),
                    Ok(b) => behind(
                        PartV::Member(before, k + ": "@ + b),
                        parts_from(g, s, o, i + 1, true),
                    ),
                },
            },
        }
    }
}

/// The text of a part before that of others.
proof fn lemma_behind(p: PartV, ps: Seq<PartV>, o: OptionsV)
    ensures
        parts_text(seq![p] + ps, o) == part_text(p, o) + parts_text(ps, o),
{
    let all = seq![p] + ps;
    assert(all[0] == p);
    assert(all.drop_first() =~= ps);
}

/// The members under a directive are those without a comma, with it.
proof fn lemma_body<G: Grammar>(g: G, key: Seq<char>, v: JsonV, comma: Comma, o: OptionsV)
    ensures
        tile_structural::members_text(g, key, v, comma, o) == match body_of(g, key, v, o) {
            Err(e) => Err::<Seq<char>, Seq<char>>(e),
            Ok(b) => Ok(with_comma(comma, b)),
        },
{
}

/// How a repetition is written behind a text.
proof fn lemma_repeated_text(
    out: Seq<char>,
    o: OptionsV,
    header: Seq<char>,
    comma: Comma,
    body: Seq<char>,
)
    ensures
        out + o.sigil + "for "@ + header + (if comma == Comma::Sep {
            ""@
        } else {
            " sep \"\""@
        }) + " { "@ + with_comma(comma, body) + " }"@ == out + part_text(
            PartV::Repeated(header, comma, body),
            o,
        ),
{
    let sep = if comma == Comma::Sep {
        ""@
    } else {
        " sep \"\""@
    };
    let b = with_comma(comma, body);
    assert(out + o.sigil + "for "@ + header + sep + " { "@ + b + " }"@ =~= out + (o.sigil + "for "@
        + header + sep + " { "@ + b + " }"@));
}

/// How a choice is written behind a text.
proof fn lemma_chosen_text(
    out: Seq<char>,
    o: OptionsV,
    cond: Seq<char>,
    comma: Comma,
    yes: Seq<char>,
    no: Seq<char>,
)
    ensures
        ({
            let first = out + o.sigil + "if "@ + cond + " { "@ + with_comma(comma, yes) + " }"@;
            &&& first == out + part_text(PartV::Chosen(cond, comma, yes, None), o)
            &&& first + " "@ + o.sigil + "else { "@ + with_comma(comma, no) + " }"@ == out
                + part_text(PartV::Chosen(cond, comma, yes, Some(no)), o)
        }),
{
    let b = with_comma(comma, yes);
    let c = with_comma(comma, no);
    let own = o.sigil + "if "@ + cond + " { "@ + b + " }"@;
    let first = out + o.sigil + "if "@ + cond + " { "@ + b + " }"@;
    assert(first =~= out + own);
    assert(first + " "@ + o.sigil + "else { "@ + c + " }"@ =~= out + (own + " "@ + o.sigil
        + "else { "@ + c + " }"@));
}

/// How a plain member is written behind a text.
proof fn lemma_member_text(
    out: Seq<char>,
    o: OptionsV,
    before: bool,
    key: Seq<char>,
    text: Seq<char>,
)
    ensures
        out + (if before {
            ", "@
        } else {
            ""@
        }) + key + ": "@ + text == out + part_text(PartV::Member(before, key + ": "@ + text), o),
{
    let lead = if before {
        ", "@
    } else {
        ""@
    };
    assert(out + lead + key + ": "@ + text =~= out + (lead + (key + ": "@ + text)));
}

/// An object is written part by part.
#[verifier::rlimit(40)]
#[verifier::spinoff_prover]
proof fn lemma_object_parts<G: Grammar>(
    g: G,
    s: Seq<(Seq<char>, JsonV)>,
    o: OptionsV,
    i: int,
    before: bool,
    out: Seq<char>,
)
    ensures
        tile_structural::object_from(g, s, o, i, before, out) == match parts_from(
            g,
            s,
            o,
            i,
            before,
        ) {
            Err(e) => Err::<Seq<char>, Seq<char>>(e),
            Ok(ps) => Ok(out + parts_text(ps, o)),
        },
    decreases s.len() - i, 0nat,
{
    if i < 0 || i >= s.len() {
        assert(out + parts_text(Seq::empty(), o) =~= out);
    } else {
        let (key, v) = s[i];
        let comma = tile_structural::comma_of(before, tile_structural::more_after(s, o, i + 1));
        match tile_structural::directive(key, o) {
            Some(DirectiveV::For(header)) => {
                lemma_body(g, key, v, comma, o);
                if body_of(g, key, v, o) is Ok {
                    let b = body_of(g, key, v, o)->Ok_0;
                    lemma_repeated_text(out, o, header, comma, b);
                    lemma_part(g, s, o, i + 1, before, out, PartV::Repeated(header, comma, b));
                }
            },
            Some(DirectiveV::If(cond)) => {
                lemma_body(g, key, v, comma, o);
                if body_of(g, key, v, o) is Ok {
                    let yes = body_of(g, key, v, o)->Ok_0;
                    if i + 1 < s.len() && tile_structural::directive(s[i + 1].0, o) == Some(
                        DirectiveV::Else,
                    ) {
                        lemma_body(g, s[i + 1].0, s[i + 1].1, comma, o);
                        let other = body_of(g, s[i + 1].0, s[i + 1].1, o);
                        if other is Ok {
                            let no = other->Ok_0;
                            let p = PartV::Chosen(cond, comma, yes, Some(no));
                            lemma_chosen_text(out, o, cond, comma, yes, no);
                            lemma_part(g, s, o, i + 2, before, out, p);
                        }
                    } else {
                        let p = PartV::Chosen(cond, comma, yes, None);
                        lemma_chosen_text(out, o, cond, comma, yes, yes);
                        lemma_part(g, s, o, i + 1, before, out, p);
                    }
                }
            },
            Some(DirectiveV::Else) => {},
            None => {
                let kt = tile_structural::string_text(g, key, true, o);
                let vt = tile_structural::value_text(g, v, o);
                if kt is Ok && vt is Ok {
                    let p = PartV::Member(before, kt->Ok_0 + ": "@ + vt->Ok_0);
                    lemma_member_text(out, o, before, kt->Ok_0, vt->Ok_0);
                    lemma_part(g, s, o, i + 1, true, out, p);
                }
            },
        }
    }
}

/// A part is written before the others.
proof fn lemma_part<G: Grammar>(
    g: G,
    s: Seq<(Seq<char>, JsonV)>,
    o: OptionsV,
    i: int,
    before: bool,
    out: Seq<char>,
    p: PartV,
)
    ensures
        tile_structural::object_from(g, s, o, i, before, out + part_text(p, o)) == match behind(
            p,
            parts_from(g, s, o, i, before),
        ) {
            Err(e) => Err::<Seq<char>, Seq<char>>(e),
            Ok(ps) => Ok(out + parts_text(ps, o)),
        },
    decreases s.len() - i, 1nat,
{
    lemma_object_parts(g, s, o, i, before, out + part_text(p, o));
    match parts_from(g, s, o, i, before) {
        Ok(ps) => {
            lemma_behind(p, ps, o);
            assert(out + part_text(p, o) + parts_text(ps, o) =~= out + (part_text(p, o)
                + parts_text(ps, o)));
        },
        Err(_) => {},
    }
}

/// An object is its parts, each written with the commas that go with it.
pub proof fn law_object_parts<G: Grammar>(g: G, s: Seq<(Seq<char>, JsonV)>, o: OptionsV)
    ensures
        tile_structural::object_from(g, s, o, 0, false, Seq::empty()) == match parts_from(
            g,
            s,
            o,
            0,
            false,
        ) {
            Err(e) => Err::<Seq<char>, Seq<char>>(e),
            Ok(ps) => Ok(parts_text(ps, o)),
        },
{
    let none = Seq::<char>::empty();
    lemma_object_parts(g, s, o, 0, false, none);
    match parts_from(g, s, o, 0, false) {
        Ok(ps) => {
            assert(none + parts_text(ps, o) =~= parts_text(ps, o));
        },
        Err(_) => {},
    }
}

// ---------------------------------------------------------------------
// What the parts come to
// ---------------------------------------------------------------------

/// What stands in an object that was filled.
#[verifier::ext_equal]
pub enum MarkV {
    /// Members.
    Members(Seq<char>),
    /// A comma.
    Comma,
}

/// Texts with a comma before each.
pub open spec fn led(items: Seq<Seq<char>>) -> Seq<MarkV> {
    Seq::new(
        2 * items.len(),
        |i: int|
            if i % 2 == 0 {
                MarkV::Comma
            } else {
                MarkV::Members(items[i / 2])
            },
    )
}

/// Texts with a comma behind each.
pub open spec fn trailed(items: Seq<Seq<char>>) -> Seq<MarkV> {
    Seq::new(
        2 * items.len(),
        |i: int|
            if i % 2 == 0 {
                MarkV::Members(items[i / 2])
            } else {
                MarkV::Comma
            },
    )
}

/// Texts with a comma between each two.
pub open spec fn separated(items: Seq<Seq<char>>) -> Seq<MarkV> {
    Seq::new(
        if items.len() == 0 {
            0
        } else {
            (2 * items.len() - 1) as nat
        },
        |i: int|
            if i % 2 == 0 {
                MarkV::Members(items[i / 2])
            } else {
                MarkV::Comma
            },
    )
}

/// Whether a part can come to texts: a plain member to one, a choice to one
/// or, without another, to none, a repetition to any number.
pub open spec fn comes_to(p: PartV, items: Seq<Seq<char>>) -> bool {
    match p {
        PartV::Member(_, _) => items.len() == 1,
        PartV::Repeated(_, _, _) => true,
        PartV::Chosen(_, _, _, otherwise) => items.len() == 1 || (otherwise is None && items.len()
            == 0),
    }
}

/// What stands for a part in an object that was filled: the texts that it
/// comes to, with the commas that it is written with.
pub open spec fn filled(p: PartV, items: Seq<Seq<char>>) -> Seq<MarkV> {
    match p {
        PartV::Member(is_led, _) => if is_led {
            led(items)
        } else {
            separated(items)
        },
        PartV::Repeated(_, comma, _) | PartV::Chosen(_, comma, _, _) => match comma {
            Comma::Leading => led(items),
            Comma::Trailing => trailed(items),
            Comma::Sep => separated(items),
        },
    }
}

/// What stands in an object whose parts come to texts.
pub open spec fn all_filled(ps: Seq<PartV>, items: Seq<Seq<Seq<char>>>) -> Seq<MarkV>
    decreases ps.len(),
{
    if ps.len() == 0 {
        Seq::empty()
    } else {
        filled(ps[0], items[0]) + all_filled(ps.drop_first(), items.drop_first())
    }
}

/// All the texts that the parts of an object come to.
pub open spec fn all_items(items: Seq<Seq<Seq<char>>>) -> Seq<Seq<char>>
    decreases items.len(),
{
    if items.len() == 0 {
        Seq::empty()
    } else {
        items[0] + all_items(items.drop_first())
    }
}

/// Whether each of a run of parts can come to its texts.
pub open spec fn all_come_to(ps: Seq<PartV>, items: Seq<Seq<Seq<char>>>) -> bool {
    items.len() == ps.len() && forall|i: int|
        0 <= i < ps.len() ==> comes_to(#[trigger] ps[i], items[i])
}

/// Texts are led, trailed and separated run by run.
proof fn lemma_runs(a: Seq<Seq<char>>, b: Seq<Seq<char>>)
    ensures
        led(a) + led(b) == led(a + b),
        b.len() > 0 ==> trailed(a) + separated(b) == separated(a + b),
        a.len() > 0 ==> separated(a) + led(b) == separated(a + b),
{
    assert(led(a) + led(b) =~= led(a + b));
    if b.len() > 0 {
        assert(trailed(a) + separated(b) =~= separated(a + b));
    }
    if a.len() > 0 {
        assert(separated(a) + led(b) =~= separated(a + b));
    }
}

/// Whether a plain member stands from member `i` on.
pub open spec fn plain_from(s: Seq<(Seq<char>, JsonV)>, o: OptionsV, i: int) -> bool {
    exists|j: int|
        i <= j < s.len() && tile_structural::directive((#[trigger] s[j]).0, o) is None
}

/// The texts of the first part, and those of the others.
proof fn lemma_first_part(p: PartV, ps: Seq<PartV>, items: Seq<Seq<Seq<char>>>)
    requires
        all_come_to(seq![p] + ps, items),
    ensures
        comes_to(p, items[0]),
        all_come_to(ps, items.drop_first()),
        all_filled(seq![p] + ps, items) == filled(p, items[0]) + all_filled(
            ps,
            items.drop_first(),
        ),
        all_items(items) == items[0] + all_items(items.drop_first()),
{
    let all = seq![p] + ps;
    assert(all[0] == p);
    assert(all.drop_first() =~= ps);
    assert forall|i: int| 0 <= i < ps.len() implies comes_to(
        #[trigger] ps[i],
        items.drop_first()[i],
    ) by {
        assert(all[i + 1] == ps[i]);
    }
}

/// Where the commas of a part go, by whether a plain member stands before it
/// and a member behind it.
pub open spec fn placed(p: PartV, plain: bool, before: bool, after: bool) -> bool {
    match p {
        PartV::Member(is_led, _) => plain && is_led == before,
        PartV::Repeated(_, comma, _) | PartV::Chosen(_, comma, _, _) => !plain && comma
            == tile_structural::comma_of(before, after),
    }
}

/// How many members the part at member `i` takes.
pub open spec fn width(s: Seq<(Seq<char>, JsonV)>, o: OptionsV, i: int) -> int {
    if tile_structural::directive(s[i].0, o) matches Some(DirectiveV::If(_)) && i + 1 < s.len()
        && tile_structural::directive(s[i + 1].0, o) == Some(DirectiveV::Else) {
        2
    } else {
        1
    }
}

/// The first part and the others.
#[verifier::spinoff_prover]
proof fn lemma_split<G: Grammar>(
    g: G,
    s: Seq<(Seq<char>, JsonV)>,
    o: OptionsV,
    i: int,
    before: bool,
    ps: Seq<PartV>,
) -> (tail: Seq<PartV>)
    requires
        0 <= i < s.len(),
        parts_from(g, s, o, i, before) == Ok::<Seq<PartV>, Seq<char>>(ps),
    ensures
        ps.len() > 0,
        ps == seq![ps[0]] + tail,
        i + width(s, o, i) <= s.len(),
        ({
            let plain = tile_structural::directive(s[i].0, o) is None;
            &&& placed(ps[0], plain, before, tile_structural::more_after(s, o, i + 1))
            &&& parts_from(g, s, o, i + width(s, o, i), before || plain) == Ok::<
                Seq<PartV>,
                Seq<char>,
            >(tail)
        }),
{
    let plain = tile_structural::directive(s[i].0, o) is None;
    let rest = parts_from(g, s, o, i + width(s, o, i), before || plain);
    let tail = rest->Ok_0;
    assert(ps =~= seq![ps[0]] + tail);
    tail
}

/// Up to a plain member that follows a directive, members follow it.
proof fn lemma_plain_behind(s: Seq<(Seq<char>, JsonV)>, o: OptionsV, i: int)
    requires
        0 <= i < s.len(),
        !(tile_structural::directive(s[i].0, o) is None),
        plain_from(s, o, i),
    ensures
        plain_from(s, o, i + width(s, o, i)),
        tile_structural::more_after(s, o, i + 1),
{
    let j = choose|j: int|
        i <= j < s.len() && tile_structural::directive((#[trigger] s[j]).0, o) is None;
    assert(j != i);
    assert(j >= i + width(s, o, i));
    assert(tile_structural::directive(s[j].0, o) != Some(DirectiveV::Else));
}

/// What a part before others comes to.
proof fn lemma_joined(
    p: PartV,
    plain: bool,
    before: bool,
    after: bool,
    items: Seq<Seq<char>>,
    rest: Seq<Seq<char>>,
)
    requires
        placed(p, plain, before, after),
        comes_to(p, items),
        before || plain || (after && rest.len() > 0),
    ensures
        before ==> filled(p, items) + led(rest) == led(items + rest),
        !before && plain ==> filled(p, items) + led(rest) == separated(items + rest) && items.len()
            > 0,
        !before && !plain ==> filled(p, items) + separated(rest) == separated(items + rest),
{
    lemma_runs(items, rest);
}

/// What the parts from member `i` on come to: behind a plain member every
/// text is led by a comma, and up to the last plain member every text but the
/// first is separated from the one before.
#[verifier::spinoff_prover]
proof fn lemma_commas<G: Grammar>(
    g: G,
    s: Seq<(Seq<char>, JsonV)>,
    o: OptionsV,
    i: int,
    before: bool,
    ps: Seq<PartV>,
    items: Seq<Seq<Seq<char>>>,
)
    requires
        0 <= i <= s.len(),
        parts_from(g, s, o, i, before) == Ok::<Seq<PartV>, Seq<char>>(ps),
        before || plain_from(s, o, i),
        all_come_to(ps, items),
    ensures
        before ==> all_filled(ps, items) == led(all_items(items)),
        !before ==> all_filled(ps, items) == separated(all_items(items)) && all_items(items).len()
            > 0,
    decreases s.len() - i,
{
    if i == s.len() {
        assert(ps.len() == 0);
        assert(all_filled(ps, items) =~= led(all_items(items)));
    } else {
        let plain = tile_structural::directive(s[i].0, o) is None;
        let tail = lemma_split(g, s, o, i, before, ps);
        let later = items.drop_first();
        lemma_first_part(ps[0], tail, items);
        if !before && !plain {
            lemma_plain_behind(s, o, i);
        }
        lemma_commas(g, s, o, i + width(s, o, i), before || plain, tail, later);
        let after = tile_structural::more_after(s, o, i + 1);
        lemma_joined(ps[0], plain, before, after, items[0], all_items(later));
    }
}

/// Whether a comma stands nowhere but between two texts.
pub open spec fn well_separated(marks: Seq<MarkV>) -> bool {
    forall|i: int|
        0 <= i < marks.len() && #[trigger] marks[i] == MarkV::Comma ==> 0 < i < marks.len() - 1
            && marks[i - 1] is Members && marks[i + 1] is Members
}

/// Texts with a comma between each two are well separated.
proof fn lemma_separated(items: Seq<Seq<char>>)
    ensures
        well_separated(separated(items)),
{
}

/// What a single directive comes to.
proof fn lemma_alone_filled(p: PartV, items: Seq<Seq<Seq<char>>>)
    requires
        all_come_to(seq![p], items),
        match p {
            PartV::Member(_, _) => false,
            PartV::Repeated(_, comma, _) => comma == Comma::Sep,
            PartV::Chosen(_, comma, _, _) => comma == Comma::Sep,
        },
    ensures
        all_filled(seq![p], items) == separated(all_items(items)),
{
    let none = Seq::<PartV>::empty();
    assert(seq![p] =~= seq![p] + none);
    lemma_first_part(p, none, items);
    assert(items.drop_first().len() == 0);
    assert(all_items(items) =~= items[0]);
    assert(all_filled(seq![p], items) =~= separated(items[0]));
}

/// In an object with a plain member a comma stands between each two texts
/// that its parts come to, and nowhere else, whatever each directive comes
/// to: none at either end, and no two in a row. In one that is a single
/// directive the texts of its repetitions are separated so too.
pub proof fn law_no_dangling_comma<G: Grammar>(
    g: G,
    s: Seq<(Seq<char>, JsonV)>,
    o: OptionsV,
    ps: Seq<PartV>,
    items: Seq<Seq<Seq<char>>>,
)
    requires
        parts_from(g, s, o, 0, false) == Ok::<Seq<PartV>, Seq<char>>(ps),
        plain_from(s, o, 0) || ps.len() == 1,
        all_come_to(ps, items),
    ensures
        all_filled(ps, items) == separated(all_items(items)),
        well_separated(all_filled(ps, items)),
{
    lemma_separated(all_items(items));
    if plain_from(s, o, 0) {
        lemma_commas(g, s, o, 0, false, ps, items);
    } else {
        lemma_no_plain(g, s, o, ps);
        assert(ps =~= seq![ps[0]]);
        lemma_alone_filled(ps[0], items);
    }
}

/// An object of one part without a plain member is a single directive.
proof fn lemma_no_plain<G: Grammar>(g: G, s: Seq<(Seq<char>, JsonV)>, o: OptionsV, ps: Seq<PartV>)
    requires
        parts_from(g, s, o, 0, false) == Ok::<Seq<PartV>, Seq<char>>(ps),
        !plain_from(s, o, 0),
        ps.len() == 1,
    ensures
        match ps[0] {
            PartV::Member(_, _) => false,
            PartV::Repeated(_, comma, _) => comma == Comma::Sep,
            PartV::Chosen(_, comma, _, _) => comma == Comma::Sep,
        },
{
    if s.len() > 0 {
        assert(!(tile_structural::directive(s[0].0, o) is None));
        lemma_alone(g, s, o, ps);
    }
}

/// Where members are left there is a part.
proof fn lemma_some_part<G: Grammar>(
    g: G,
    s: Seq<(Seq<char>, JsonV)>,
    o: OptionsV,
    i: int,
    before: bool,
)
    requires
        0 <= i < s.len(),
        parts_from(g, s, o, i, before) is Ok,
    ensures
        parts_from(g, s, o, i, before)->Ok_0.len() > 0,
{
}

/// Behind a single directive no member follows but its other.
proof fn lemma_none_after<G: Grammar>(
    g: G,
    s: Seq<(Seq<char>, JsonV)>,
    o: OptionsV,
    ps: Seq<PartV>,
    d: DirectiveV,
)
    requires
        s.len() > 0,
        tile_structural::directive(s[0].0, o) == Some(d),
        parts_from(g, s, o, 0, false) == Ok::<Seq<PartV>, Seq<char>>(ps),
        ps.len() == 1,
    ensures
        !tile_structural::more_after(s, o, 1),
{
    let paired = d is If && 1 < s.len() && tile_structural::directive(s[1].0, o) == Some(
        DirectiveV::Else,
    );
    let step = if paired {
        2int
    } else {
        1int
    };
    let rest = parts_from(g, s, o, step, false);
    assert(rest is Ok && rest->Ok_0.len() == 0);
    if step < s.len() {
        lemma_some_part(g, s, o, step, false);
    }
    assert forall|j: int| 1 <= j < s.len() implies tile_structural::directive(
        (#[trigger] s[j]).0,
        o,
    ) == Some(DirectiveV::Else) by {
        assert(j == 1 && paired);
    }
}

/// A single directive is written without a comma of its own.
proof fn lemma_alone<G: Grammar>(g: G, s: Seq<(Seq<char>, JsonV)>, o: OptionsV, ps: Seq<PartV>)
    requires
        s.len() > 0,
        parts_from(g, s, o, 0, false) == Ok::<Seq<PartV>, Seq<char>>(ps),
        !(tile_structural::directive(s[0].0, o) is None),
        ps.len() == 1,
    ensures
        match ps[0] {
            PartV::Member(_, _) => false,
            PartV::Repeated(_, comma, _) => comma == Comma::Sep,
            PartV::Chosen(_, comma, _, _) => comma == Comma::Sep,
        },
{
    let d = tile_structural::directive(s[0].0, o)->0;
    lemma_none_after(g, s, o, ps, d);
    assert(tile_structural::comma_of(false, false) == Comma::Sep);
}

} // verus!
