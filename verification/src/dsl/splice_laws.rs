//! What splicing puts in place of a hole.
use crate::dsl::ast::Span;
use crate::dsl::template::{ForSourceV, HoleV, PieceV, ReadingV, TileDefV};
use crate::dsl::tile_lower;
use vstd::prelude::*;

verus! {

/// A name stands for the last template of that name.
pub proof fn law_last_template_counts(tiles: Seq<TileDefV>, name: Seq<char>, i: int)
    requires
        0 <= i < tiles.len(),
        tiles[i].name == name,
        forall|j: int| i < j < tiles.len() ==> (#[trigger] tiles[j]).name != name,
    ensures
        tile_lower::tile_named(tiles, name) == Some(tiles[i]),
    decreases tiles.len(),
{
    if i < tiles.len() - 1 {
        assert(tiles[tiles.len() - 1].name != name);
        let front = tiles.drop_last();
        assert forall|j: int| i < j < front.len() implies (#[trigger] front[j]).name != name by {
            assert(front[j] == tiles[j]);
        }
        law_last_template_counts(front, name, i);
    }
}

/// A hole that is nothing but the name of another template of the same
/// encoding is replaced by the pieces of that template; one of another
/// encoding stays a hole.
pub proof fn law_hole_is_replaced(
    tiles: Seq<TileDefV>,
    h: HoleV,
    current: Seq<char>,
    encoding: Seq<char>,
    depth: nat,
    other: TileDefV,
)
    requires
        depth <= 16,
        h.expr is Ident,
        h.decl_type is None,
        h.format is None,
        tile_lower::tile_named(tiles, h.expr->Ident_0) == Some(other),
        other.name != current,
    ensures
        ({
            let own = match other.encoding {
                Some(e) => e,
                None => "text"@,
            };
            let r = tile_lower::spliced(
                tiles,
                seq![PieceV::Hole(h)],
                current,
                encoding,
                depth,
            );
            &&& own == encoding ==> r == tile_lower::spliced(
                tiles,
                other.pieces,
                other.name,
                encoding,
                depth + 1,
            )
            &&& own != encoding ==> r == Ok::<Seq<PieceV>, Seq<char>>(seq![PieceV::Hole(h)])
        }),
{
    let one = seq![PieceV::Hole(h)];
    let none = Seq::<PieceV>::empty();
    assert(one.drop_last() =~= none);
    assert(tile_lower::spliced(tiles, one.drop_last(), current, encoding, depth) == Ok::<
        Seq<PieceV>,
        Seq<char>,
    >(none));
    assert(one.last() == PieceV::Hole(h));
    match tile_lower::spliced(tiles, other.pieces, other.name, encoding, depth + 1) {
        Ok(inner) => {
            assert(none + inner =~= inner);
        },
        Err(_) => {},
    }
    assert(none.push(PieceV::Hole(h)) =~= one);
}

/// Pieces are spliced one after the other: a run behind another is spliced
/// as it would be alone.
pub proof fn law_splices_in_order(
    tiles: Seq<TileDefV>,
    a: Seq<PieceV>,
    b: Seq<PieceV>,
    current: Seq<char>,
    encoding: Seq<char>,
    depth: nat,
)
    requires
        depth <= 16,
        tile_lower::spliced(tiles, a, current, encoding, depth) is Ok,
        tile_lower::spliced(tiles, b, current, encoding, depth) is Ok,
    ensures
        tile_lower::spliced(tiles, a + b, current, encoding, depth) == Ok::<Seq<PieceV>, Seq<char>>(
            tile_lower::spliced(tiles, a, current, encoding, depth)->Ok_0 + tile_lower::spliced(
                tiles,
                b,
                current,
                encoding,
                depth,
            )->Ok_0,
        ),
    decreases b.len(),
{
    let x = tile_lower::spliced(tiles, a, current, encoding, depth)->Ok_0;
    if b.len() == 0 {
        assert(a + b =~= a);
        assert(x + Seq::<PieceV>::empty() =~= x);
    } else {
        let front = b.drop_last();
        assert(tile_lower::spliced(tiles, front, current, encoding, depth) is Ok);
        law_splices_in_order(tiles, a, front, current, encoding, depth);
        assert((a + b).drop_last() =~= a + front);
        assert((a + b).last() == b.last());
        let y = tile_lower::spliced(tiles, front, current, encoding, depth)->Ok_0;
        let z = tile_lower::spliced(tiles, b, current, encoding, depth)->Ok_0;
        let got = tile_lower::spliced(tiles, a + b, current, encoding, depth)->Ok_0;
        assert(got =~= x + z);
    }
}

/// A branch stays a branch: what it takes where its condition holds is
/// spliced in its place, and so is what it takes where it does not.
pub proof fn law_branch_is_spliced(
    tiles: Seq<TileDefV>,
    cond: ReadingV,
    yes: Seq<PieceV>,
    no: Option<Seq<PieceV>>,
    span: Span,
    current: Seq<char>,
    encoding: Seq<char>,
    depth: nat,
)
    requires
        depth <= 16,
        tile_lower::spliced(tiles, yes, current, encoding, depth + 1) is Ok,
        no matches Some(n) ==> tile_lower::spliced(tiles, n, current, encoding, depth + 1) is Ok,
    ensures
        tile_lower::spliced(
            tiles,
            seq![PieceV::Branch(cond, yes, no, span)],
            current,
            encoding,
            depth,
        ) == Ok::<Seq<PieceV>, Seq<char>>(
            seq![
                PieceV::Branch(
                    cond,
                    tile_lower::spliced(tiles, yes, current, encoding, depth + 1)->Ok_0,
                    match no {
                        Some(n) => Some(
                            tile_lower::spliced(tiles, n, current, encoding, depth + 1)->Ok_0,
                        ),
                        None => None,
                    },
                    span,
                ),
            ],
        ),
{
    let one = seq![PieceV::Branch(cond, yes, no, span)];
    let none = Seq::<PieceV>::empty();
    assert(one.drop_last() =~= none);
    assert(tile_lower::spliced(tiles, one.drop_last(), current, encoding, depth) == Ok::<
        Seq<PieceV>,
        Seq<char>,
    >(none));
    let got = tile_lower::spliced(tiles, one, current, encoding, depth);
    assert(got is Ok);
    assert(got->Ok_0 =~= seq![got->Ok_0[0]]);
}

/// Text stays as it is, and a projection keeps its source and its separator.
pub proof fn law_rest_is_spliced(
    tiles: Seq<TileDefV>,
    s: Seq<char>,
    source: ForSourceV,
    sep: Option<Seq<char>>,
    body: Seq<PieceV>,
    span: Span,
    current: Seq<char>,
    encoding: Seq<char>,
    depth: nat,
)
    requires
        depth <= 16,
        tile_lower::spliced(tiles, body, current, encoding, depth + 1) is Ok,
    ensures
        tile_lower::spliced(tiles, seq![PieceV::Static(s)], current, encoding, depth) == Ok::<
            Seq<PieceV>,
            Seq<char>,
        >(seq![PieceV::Static(s)]),
        tile_lower::spliced(
            tiles,
            seq![PieceV::Projection(source, sep, body, span)],
            current,
            encoding,
            depth,
        ) == Ok::<Seq<PieceV>, Seq<char>>(
            seq![
                PieceV::Projection(
                    source,
                    sep,
                    tile_lower::spliced(tiles, body, current, encoding, depth + 1)->Ok_0,
                    span,
                ),
            ],
        ),
{
    let none = Seq::<PieceV>::empty();
    let a = seq![PieceV::Static(s)];
    let b = seq![PieceV::Projection(source, sep, body, span)];
    assert(a.drop_last() =~= none);
    assert(b.drop_last() =~= none);
    assert(tile_lower::spliced(tiles, none, current, encoding, depth) == Ok::<
        Seq<PieceV>,
        Seq<char>,
    >(none));
    let x = tile_lower::spliced(tiles, a, current, encoding, depth);
    let y = tile_lower::spliced(tiles, b, current, encoding, depth);
    assert(x->Ok_0 =~= a);
    assert(y->Ok_0 =~= seq![y->Ok_0[0]]);
}

} // verus!
