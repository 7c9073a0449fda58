//! What the distance between two texts measures.
use crate::dsl::registry;
use vstd::prelude::*;

verus! {

/// Whether `b` is `a` with one character more.
pub open spec fn inserted_once(a: Seq<char>, b: Seq<char>) -> bool {
    exists|i: int, c: char|
        0 <= i <= a.len() && b == #[trigger] a.insert(i, c)
}

/// Whether `b` is `a` with one character replaced.
pub open spec fn replaced_once(a: Seq<char>, b: Seq<char>) -> bool {
    exists|i: int, c: char| 0 <= i < a.len() && b == #[trigger] a.update(i, c)
}

/// Whether one insertion, removal or replacement of a character turns `a`
/// into `b`.
pub open spec fn edited(a: Seq<char>, b: Seq<char>) -> bool {
    inserted_once(a, b) || inserted_once(b, a) || replaced_once(a, b)
}

/// Whether a run of texts leads from `a` to `b`, one edit at a time.
pub open spec fn leads(path: Seq<Seq<char>>, a: Seq<char>, b: Seq<char>) -> bool {
    &&& path.len() > 0
    &&& path[0] == a
    &&& path.last() == b
    &&& forall|i: int| 0 <= i < path.len() - 1 ==> edited(#[trigger] path[i], path[i + 1])
}

/// The distance is at most what removing one text and writing the other
/// takes, and at least the difference of the lengths.
proof fn lemma_distance_lengths(a: Seq<char>, b: Seq<char>)
    ensures
        registry::distance(a, b) <= a.len() + b.len(),
        a.len() <= b.len() + registry::distance(a, b),
        b.len() <= a.len() + registry::distance(a, b),
    decreases a.len() + b.len(),
{
    if a.len() > 0 && b.len() > 0 {
        lemma_distance_lengths(a.drop_last(), b);
        lemma_distance_lengths(a, b.drop_last());
        lemma_distance_lengths(a.drop_last(), b.drop_last());
    }
}

/// The distance is zero exactly between equal texts.
pub proof fn law_distance_zero(a: Seq<char>, b: Seq<char>)
    ensures
        registry::distance(a, b) == 0 <==> a == b,
    decreases a.len() + b.len(),
{
    if a.len() == 0 || b.len() == 0 {
        if registry::distance(a, b) == 0 {
            assert(a =~= b);
        }
    } else {
        law_distance_zero(a.drop_last(), b.drop_last());
        if registry::distance(a, b) == 0 {
            assert(a =~= a.drop_last().push(a.last()));
            assert(b =~= b.drop_last().push(b.last()));
        }
    }
}

/// The distance is the same both ways.
pub proof fn law_distance_symmetric(a: Seq<char>, b: Seq<char>)
    ensures
        registry::distance(a, b) == registry::distance(b, a),
    decreases a.len() + b.len(),
{
    if a.len() > 0 && b.len() > 0 {
        law_distance_symmetric(a.drop_last(), b);
        law_distance_symmetric(a, b.drop_last());
        law_distance_symmetric(a.drop_last(), b.drop_last());
    }
}

/// A way round is no shorter.
pub proof fn law_distance_triangle(a: Seq<char>, b: Seq<char>, c: Seq<char>)
    ensures
        registry::distance(a, c) <= registry::distance(a, b) + registry::distance(b, c),
    decreases a.len() + b.len() + c.len(),
{
    lemma_distance_lengths(a, b);
    lemma_distance_lengths(b, c);
    lemma_distance_lengths(a, c);
    if a.len() > 0 && b.len() > 0 && c.len() > 0 {
        let (x, y, z) = (a.drop_last(), b.drop_last(), c.drop_last());
        law_distance_triangle(x, b, c);
        law_distance_triangle(a, y, c);
        law_distance_triangle(a, b, z);
        law_distance_triangle(a, y, z);
        law_distance_triangle(x, y, c);
        law_distance_triangle(x, y, z);
    }
}

/// One edit is a distance of one at most.
proof fn lemma_inserted_distance(a: Seq<char>, i: int, c: char)
    requires
        0 <= i <= a.len(),
    ensures
        registry::distance(a, a.insert(i, c)) <= 1,
    decreases a.len(),
{
    let b = a.insert(i, c);
    if i == a.len() {
        assert(b.drop_last() =~= a);
        law_distance_zero(a, a);
    } else {
        assert(b.last() == a.last());
        assert(b.drop_last() =~= a.drop_last().insert(i, c));
        lemma_inserted_distance(a.drop_last(), i, c);
    }
}

/// The same of a replacement.
proof fn lemma_replaced_distance(a: Seq<char>, i: int, c: char)
    requires
        0 <= i < a.len(),
    ensures
        registry::distance(a, a.update(i, c)) <= 1,
    decreases a.len(),
{
    let b = a.update(i, c);
    if i == a.len() - 1 {
        assert(b.drop_last() =~= a.drop_last());
        law_distance_zero(a.drop_last(), a.drop_last());
    } else {
        assert(b.last() == a.last());
        assert(b.drop_last() =~= a.drop_last().update(i, c));
        lemma_replaced_distance(a.drop_last(), i, c);
    }
}

/// The same of any edit.
proof fn lemma_edited_distance(a: Seq<char>, b: Seq<char>)
    requires
        edited(a, b),
    ensures
        registry::distance(a, b) <= 1,
{
    if inserted_once(a, b) {
        let (i, c) = choose|i: int, c: char|
            0 <= i <= a.len() && b == #[trigger] a.insert(i, c);
        lemma_inserted_distance(a, i, c);
    } else if inserted_once(b, a) {
        let (i, c) = choose|i: int, c: char|
            0 <= i <= b.len() && a == #[trigger] b.insert(i, c);
        lemma_inserted_distance(b, i, c);
        law_distance_symmetric(a, b);
    } else {
        let (i, c) = choose|i: int, c: char|
            0 <= i < a.len() && b == #[trigger] a.update(i, c);
        lemma_replaced_distance(a, i, c);
    }
}

/// No run of edits is shorter than the distance.
pub proof fn law_distance_least(path: Seq<Seq<char>>, a: Seq<char>, b: Seq<char>)
    requires
        leads(path, a, b),
    ensures
        registry::distance(a, b) <= path.len() - 1,
    decreases path.len(),
{
    if path.len() == 1 {
        law_distance_zero(a, b);
    } else {
        let front = path.drop_last();
        let mid = front.last();
        assert forall|i: int| 0 <= i < front.len() - 1 implies edited(
            #[trigger] front[i],
            front[i + 1],
        ) by {
            assert(edited(path[i], path[i + 1]));
        }
        law_distance_least(front, a, mid);
        assert(edited(path[path.len() - 2], path[path.len() - 2 + 1]));
        lemma_edited_distance(mid, b);
        law_distance_triangle(a, mid, b);
    }
}

/// An edit is one with a character behind both texts, too.
proof fn lemma_edited_push(a: Seq<char>, b: Seq<char>, c: char)
    requires
        edited(a, b),
    ensures
        edited(a.push(c), b.push(c)),
{
    if inserted_once(a, b) {
        let (i, x) = choose|i: int, x: char|
            0 <= i <= a.len() && b == #[trigger] a.insert(i, x);
        assert(b.push(c) =~= a.push(c).insert(i, x));
    } else if inserted_once(b, a) {
        let (i, x) = choose|i: int, x: char|
            0 <= i <= b.len() && a == #[trigger] b.insert(i, x);
        assert(a.push(c) =~= b.push(c).insert(i, x));
    } else {
        let (i, x) = choose|i: int, x: char|
            0 <= i < a.len() && b == #[trigger] a.update(i, x);
        assert(b.push(c) =~= a.push(c).update(i, x));
    }
}

/// A path with one edit more behind it.
proof fn lemma_path_push(path: Seq<Seq<char>>, a: Seq<char>, b: Seq<char>, c: Seq<char>)
    requires
        leads(path, a, b),
        edited(b, c),
    ensures
        leads(path.push(c), a, c),
{
    let longer = path.push(c);
    assert forall|i: int| 0 <= i < longer.len() - 1 implies edited(
        #[trigger] longer[i],
        longer[i + 1],
    ) by {
        if i < path.len() - 1 {
            assert(edited(path[i], path[i + 1]));
        }
    }
}

/// Some run of edits is as short as the distance.
pub proof fn law_distance_reached(a: Seq<char>, b: Seq<char>) -> (path: Seq<Seq<char>>)
    ensures
        leads(path, a, b),
        path.len() == registry::distance(a, b) + 1,
    decreases a.len() + b.len(),
{
    if a.len() == 0 && b.len() == 0 {
        assert(a =~= b);
        seq![a]
    } else if b.len() > 0 && (a.len() == 0 || registry::distance(a, b) == registry::distance(a, b.drop_last()) + 1) {
        let path = law_distance_reached(a, b.drop_last());
        assert(b =~= b.drop_last().insert(b.len() - 1, b.last()));
        lemma_path_push(path, a, b.drop_last(), b);
        path.push(b)
    } else if a.len() > 0 && (b.len() == 0 || registry::distance(a, b) == registry::distance(a.drop_last(), b) + 1) {
        let path = law_distance_reached(a.drop_last(), b);
        assert(a =~= a.drop_last().insert(a.len() - 1, a.last()));
        let longer = seq![a] + path;
        assert forall|i: int| 0 <= i < longer.len() - 1 implies edited(
            #[trigger] longer[i],
            longer[i + 1],
        ) by {
            if i > 0 {
                assert(edited(path[i - 1], path[i - 1 + 1]));
            }
        }
        longer
    } else {
        let c = a.last();
        let path = law_distance_reached(a.drop_last(), b.drop_last());
        let moved = Seq::new(path.len(), |i: int| path[i].push(c));
        assert(a =~= a.drop_last().push(c));
        assert forall|i: int| 0 <= i < moved.len() - 1 implies edited(
            #[trigger] moved[i],
            moved[i + 1],
        ) by {
            assert(edited(path[i], path[i + 1]));
            lemma_edited_push(path[i], path[i + 1], c);
        }
        let near = b.drop_last().push(c);
        assert(leads(moved, a, near));
        if c == b.last() {
            assert(near =~= b);
            moved
        } else {
            assert(b =~= near.update(b.len() - 1, b.last()));
            lemma_path_push(moved, a, near, b);
            moved.push(b)
        }
    }
}

/// Two neighbours that change places are a distance of two.
pub proof fn law_distance_swap(s: Seq<char>, x: char, y: char, t: Seq<char>)
    requires
        x != y,
    ensures
        registry::distance(s + seq![x, y] + t, s + seq![y, x] + t) == 2,
{
    let a = s + seq![x, y] + t;
    let b = s + seq![y, x] + t;
    let k = s.len() as int;
    let mid = a.update(k, y);
    assert(a[k] == x && a[k + 1] == y && b[k] == y && b[k + 1] == x);
    assert(b =~= mid.update(k + 1, x));
    let path = seq![a, mid, b];
    assert(edited(a, mid));
    assert(edited(mid, b));
    assert forall|i: int| 0 <= i < path.len() - 1 implies edited(
        #[trigger] path[i],
        path[i + 1],
    ) by {
        assert(i == 0 || i == 1);
    }
    law_distance_least(path, a, b);
    law_distance_zero(a, b);
    if registry::distance(a, b) == 1 {
        let short = law_distance_reached(a, b);
        assert(edited(short[0], short[0int + 1]));
        assert(short[1] == b);
        assert(a.len() == b.len());
        let (i, c) = choose|i: int, c: char|
            0 <= i < a.len() && b == #[trigger] a.update(i, c);
        assert(b[k] == a.update(i, c)[k]);
        assert(b[k + 1] == a.update(i, c)[k + 1]);
    }
}

} // verus!
