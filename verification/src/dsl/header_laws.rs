//! What is read of a header however it is spaced.
use crate::chars;
use crate::dsl::ast::Span;
use crate::dsl::reading_laws;
use crate::dsl::template::OptionsV;
use crate::dsl::tile;
use vstd::prelude::*;

verus! {

// ---------------------------------------------------------------------
// Walking through a header
// ---------------------------------------------------------------------

/// The depth of brackets and the quote behind a character of a header.
pub open spec fn stepped(c: char, depth: int, quote: Option<char>) -> (int, Option<char>) {
    match quote {
        Some(q) => (
            depth,
            if c == q {
                None
            } else {
                quote
            },
        ),
        None => (
            if c == '(' || c == '[' {
                depth + 1
            } else if c == ')' || c == ']' {
                depth - 1
            } else {
                depth
            },
            tile::opens_quote(c),
        ),
    }
}

/// Whether a character of a header marks what stands behind it.
pub open spec fn marked_by(buf: Seq<char>) -> bool {
    buf.len() > 0 && tile::header_mark(buf.last())
}

/// Whether a brace at a place joins the header, by what follows it.
pub open spec fn joined(s: Seq<char>, o: OptionsV, pos: int, before: bool) -> bool {
    match tile::placeholder_size(s, pos) {
        None => false,
        Some(n) => before || (pos + n < s.len() && tile::header_mark(s[pos + n])) || ({
            let rest = chars::trim_start(s.skip(pos + n));
            !(rest.len() == 0 || chars::begins(rest, o.sigil) || chars::begins(rest, o.open))
                && tile::header_mark(rest[0]) && !"()[]"@.contains(rest[0])
        }),
    }
}

/// Whether a header goes on at a place.
pub open spec fn goes_on(
    s: Seq<char>,
    o: OptionsV,
    pos: int,
    depth: int,
    quote: Option<char>,
    before: bool,
) -> bool {
    quote is Some || depth != 0 || {
        &&& !(!(o.open.len() > 0 && o.open[0] == '{') && chars::stands_at(s, pos, o.open))
        &&& !(s[pos] == '{' && !joined(s, o, pos, before))
    }
}

/// Whether a header goes on for some characters.
pub open spec fn passes(
    s: Seq<char>,
    o: OptionsV,
    pos: int,
    n: int,
    depth: int,
    quote: Option<char>,
    before: bool,
) -> bool
    decreases n,
{
    n <= 0 || {
        let (d, q) = stepped(s[pos], depth, quote);
        goes_on(s, o, pos, depth, quote, before) && passes(
            s,
            o,
            pos + 1,
            n - 1,
            d,
            q,
            tile::header_mark(s[pos]),
        )
    }
}

/// The depth of brackets and the quote behind some characters.
pub open spec fn walked(w: Seq<char>, depth: int, quote: Option<char>) -> (int, Option<char>)
    decreases w.len(),
{
    if w.len() == 0 {
        (depth, quote)
    } else {
        let (d, q) = stepped(w[0], depth, quote);
        walked(w.drop_first(), d, q)
    }
}

/// A header that is read went on up to its end.
proof fn lemma_header_passes(
    s: Seq<char>,
    o: OptionsV,
    span: Span,
    pos: int,
    depth: int,
    quote: Option<char>,
    buf: Seq<char>,
)
    requires
        0 <= pos,
        tile::header(s, o, span, pos, depth, quote, buf).1 is Ok,
    ensures
        ({
            let (e, r) = tile::header(s, o, span, pos, depth, quote, buf);
            &&& pos <= e < s.len()
            &&& r->Ok_0 == buf + s.subrange(pos, e)
            &&& s[e] == '{'
            &&& passes(s, o, pos, e - pos, depth, quote, marked_by(buf))
            &&& walked(s.subrange(pos, e), depth, quote) == (0int, None::<char>)
        }),
    decreases s.len() - pos,
{
    let c = s[pos];
    let (e, r) = tile::header(s, o, span, pos, depth, quote, buf);
    assert(pos < s.len());
    assert(tile::joins(s, o, pos, buf) == joined(s, o, pos, marked_by(buf)));
    if quote is None && depth == 0 && c == '{' && !tile::joins(s, o, pos, buf) {
        assert(buf + s.subrange(pos, pos) =~= buf);
        assert(s.subrange(pos, pos).len() == 0);
    } else {
        let (d, q) = stepped(c, depth, quote);
        lemma_header_passes(s, o, span, pos + 1, d, q, buf.push(c));
        assert(buf.push(c) + s.subrange(pos + 1, e) =~= buf + s.subrange(pos, e));
        assert(s.subrange(pos, e).drop_first() =~= s.subrange(pos + 1, e));
        assert(buf.push(c).last() == c);
    }
}

/// A header that goes on up to a place is read from there.
proof fn lemma_passed(
    s: Seq<char>,
    o: OptionsV,
    span: Span,
    pos: int,
    n: int,
    depth: int,
    quote: Option<char>,
    buf: Seq<char>,
)
    requires
        0 <= pos,
        0 <= n,
        pos + n <= s.len(),
        passes(s, o, pos, n, depth, quote, marked_by(buf)),
    ensures
        ({
            let (d, q) = walked(s.subrange(pos, pos + n), depth, quote);
            tile::header(s, o, span, pos, depth, quote, buf) == tile::header(
                s,
                o,
                span,
                pos + n,
                d,
                q,
                buf + s.subrange(pos, pos + n),
            )
        }),
    decreases n,
{
    if n == 0 {
        assert(buf + s.subrange(pos, pos) =~= buf);
        assert(s.subrange(pos, pos).len() == 0);
    } else {
        let c = s[pos];
        let (d, q) = stepped(c, depth, quote);
        assert(tile::joins(s, o, pos, buf) == joined(s, o, pos, marked_by(buf)));
        assert(buf.push(c).last() == c);
        lemma_passed(s, o, span, pos + 1, n - 1, d, q, buf.push(c));
        let w = s.subrange(pos, pos + n);
        assert(w.drop_first() =~= s.subrange(pos + 1, pos + n));
        assert(buf.push(c) + s.subrange(pos + 1, pos + n) =~= buf + w);
    }
}

/// A header as it is written before its body.
pub open spec fn headed(head: Seq<char>) -> Seq<char> {
    head + seq!['{', ' ']
}

/// Whether a header is read as it is written.
pub open spec fn header_legible(o: OptionsV, span: Span, head: Seq<char>) -> bool {
    tile::header(headed(head), o, span, 0, 0, None, Seq::empty()) == (
        head.len() as int,
        Ok::<Seq<char>, Seq<char>>(head),
    )
}

/// Whether a header goes on to its end.
pub open spec fn runs(o: OptionsV, head: Seq<char>) -> bool {
    &&& passes(headed(head), o, 0, head.len() as int, 0, None, false)
    &&& walked(head, 0, None) == (0int, None::<char>)
}

/// A header is legible where it goes on to its end.
pub proof fn lemma_runs(o: OptionsV, span: Span, head: Seq<char>)
    requires
        reading_laws::apart(o),
    ensures
        runs(o, head) == header_legible(o, span, head),
{
    let s = headed(head);
    let n = head.len() as int;
    let none = Seq::<char>::empty();
    assert(s.subrange(0, n) =~= head);
    if runs(o, head) {
        lemma_passed(s, o, span, 0, n, 0, None, none);
        assert(none + head =~= head);
        assert(s[n] == '{' && s[n + 1] == ' ');
        assert(tile::placeholder_size(s, n) is None);
        assert(!tile::joins(s, o, n, head));
        if chars::stands_at(s, n, o.open) {
            assert(s.subrange(n, n + o.open.len())[0] == s[n]);
        }
    }
    if header_legible(o, span, head) {
        lemma_header_passes(s, o, span, 0, 0, None, none);
    }
}

// ---------------------------------------------------------------------
// Headers that begin alike
// ---------------------------------------------------------------------

/// White space, quotes, backslashes and braces mark nothing.
proof fn lemma_no_header_mark(c: char)
    requires
        chars::is_space(c) || c == '\\' || c == '"' || c == '{',
    ensures
        !tile::header_mark(c),
{
    reveal_strlit("<>=!+-*/%.,()[]&|?:");
    let all = "<>=!+-*/%.,()[]&|?:"@;
    assert forall|i: int| 0 <= i < all.len() implies #[trigger] all[i] != c by {
    }
}

/// What is left behind white space begins after it.
proof fn lemma_trim_start_after(s: Seq<char>, a: int)
    requires
        0 <= a <= s.len(),
    ensures
        chars::trim_start(s.skip(a)) == s.skip(tile::after_space(s, a)),
    decreases s.len() - a,
{
    let t = s.skip(a);
    if a < s.len() && chars::is_space(s[a]) {
        assert(t.drop_first() =~= s.skip(a + 1));
        lemma_trim_start_after(s, a + 1);
    }
}

/// The place after white space in a text behind another.
proof fn lemma_after_space_behind(x: Seq<char>, z: Seq<char>, j: int)
    requires
        0 <= j <= z.len(),
    ensures
        tile::after_space(x + z, x.len() + j) == x.len() + tile::after_space(z, j),
    decreases z.len() - j,
{
    if j < z.len() && chars::is_space(z[j]) {
        lemma_after_space_behind(x, z, j + 1);
    }
}

/// What stands in a text behind another.
proof fn lemma_stands_behind(x: Seq<char>, z: Seq<char>, j: int, w: Seq<char>)
    requires
        0 <= j,
    ensures
        chars::stands_at(x + z, x.len() + j, w) == chars::stands_at(z, j, w),
{
    if j + w.len() <= z.len() {
        assert((x + z).subrange(x.len() + j, x.len() + j + w.len()) =~= z.subrange(
            j,
            j + w.len(),
        ));
    }
}

/// The end of a word in a text behind another.
proof fn lemma_word_end_behind(x: Seq<char>, z: Seq<char>, j: int)
    requires
        0 <= j,
    ensures
        tile::word_end(x + z, x.len() + j) == x.len() + tile::word_end(z, j),
        j <= tile::word_end(z, j),
    decreases z.len() - j,
{
    if j < z.len() && chars::is_word(z[j]) {
        lemma_word_end_behind(x, z, j + 1);
    }
}

/// What begins an end stands where the end does.
pub proof fn lemma_begins_end(s: Seq<char>, k: int, w: Seq<char>)
    requires
        0 <= k <= s.len(),
    ensures
        chars::begins(s.skip(k), w) == chars::stands_at(s, k, w),
{
    if k + w.len() <= s.len() {
        assert(s.skip(k).subrange(0, w.len() as int) =~= s.subrange(k, k + w.len()));
    }
}

/// A brace joins a header in a text behind another where it does in the
/// text.
proof fn lemma_joined_behind(x: Seq<char>, z: Seq<char>, o: OptionsV, j: int, before: bool)
    requires
        0 <= j < z.len(),
    ensures
        joined(x + z, o, x.len() + j, before) == joined(z, o, j, before),
{
    let s = x + z;
    let n = x.len() as int;
    lemma_word_end_behind(x, z, j + 1);
    let end = tile::word_end(z, j + 1);
    if j + 1 < z.len() {
        assert(s[n + j + 1] == z[j + 1]);
    }
    if end < z.len() {
        assert(s[n + end] == z[end]);
    }
    assert(tile::placeholder_size(s, n + j) == tile::placeholder_size(z, j));
    match tile::placeholder_size(z, j) {
        Some(size) => {
            let a = j + size;
            assert(a <= z.len());
            if a < z.len() {
                assert(s[n + a] == z[a]);
            }
            lemma_trim_start_after(s, n + a);
            lemma_trim_start_after(z, a);
            lemma_after_space_behind(x, z, a);
            assert(s.skip(n + a) =~= z.skip(a));
        },
        None => {},
    }
}

/// Whether a header that goes on in front of one rest goes on in front of
/// another.
pub open spec fn rests(r1: Seq<char>, r2: Seq<char>) -> bool {
    let t1 = tile::after_space(r1, 0);
    let t2 = tile::after_space(r2, 0);
    &&& r1.len() > 0
    &&& r2.len() > 0
    &&& !chars::is_word(r1[0]) && r1[0] != '}' && !tile::header_mark(r1[0])
    &&& chars::is_space(r2[0]) || r2[0] == '"' || (r1[0] == '{' && r2[0] == '{' && r2.len() > 1
        && chars::is_space(r2[1]))
    &&& t1 < r1.len() && tile::header_mark(r1[t1]) ==> t2 < r2.len() && r1.skip(t1) == r2.skip(t2)
}

/// Marks that stand before one rest stand before the other.
proof fn lemma_marks_before(x: Seq<char>, r1: Seq<char>, r2: Seq<char>, j: int, w: Seq<char>)
    requires
        rests(r1, r2),
        0 <= j < x.len(),
        forall|i: int| 0 <= i < w.len() ==> reading_laws::mark(#[trigger] w[i]),
        chars::stands_at(x + r2, j, w),
    ensures
        chars::stands_at(x + r1, j, w),
{
    let n = x.len() as int;
    let k = w.len() as int;
    let s2 = x + r2;
    let seen = s2.subrange(j, j + k);
    if j + k > n {
        assert(seen[n - j] == r2[0]);
        assert(reading_laws::mark(w[n - j]));
        if j + k > n + 1 {
            assert(seen[n + 1 - j] == r2[1]);
            assert(reading_laws::mark(w[n + 1 - j]));
        }
        assert(j + k == n + 1);
    }
    assert((x + r1).subrange(j, j + k) =~= seen);
}

/// The end of a word does not depend on what follows it.
proof fn lemma_word_end_before(s1: Seq<char>, s2: Seq<char>, j: int, n: int)
    requires
        0 <= j,
        n <= s1.len(),
        n <= s2.len(),
        s1.take(n) == s2.take(n),
        tile::word_end(s1, j) < n,
    ensures
        tile::word_end(s2, j) == tile::word_end(s1, j),
    decreases n - j,
{
    lemma_word_end_behind(Seq::empty(), s1, j);
    if j < n {
        assert(s1.take(n)[j] == s1[j]);
        assert(s2.take(n)[j] == s2[j]);
        if chars::is_word(s1[j]) {
            lemma_word_end_before(s1, s2, j + 1, n);
        }
    }
}

/// A word ends before what is no word.
proof fn lemma_word_end_bound(s: Seq<char>, j: int, n: int)
    requires
        0 <= j <= n < s.len(),
        !chars::is_word(s[n]),
    ensures
        j <= tile::word_end(s, j) <= n,
    decreases n - j,
{
    if j < n && chars::is_word(s[j]) {
        lemma_word_end_bound(s, j + 1, n);
    }
}

/// A brace that joins a header before one rest joins it before the other.
#[verifier::rlimit(30)]
#[verifier::spinoff_prover]
proof fn lemma_joined_before(
    x: Seq<char>,
    r1: Seq<char>,
    r2: Seq<char>,
    o: OptionsV,
    j: int,
    before: bool,
)
    requires
        reading_laws::apart(o),
        rests(r1, r2),
        0 <= j < x.len(),
        joined(x + r1, o, j, before),
    ensures
        joined(x + r2, o, j, before),
{
    let s1 = x + r1;
    let s2 = x + r2;
    let n = x.len() as int;
    assert(s1[n] == r1[0]);
    lemma_word_end_bound(s1, j + 1, n);
    let end = tile::word_end(s1, j + 1);
    assert(s1[end] == '}');
    assert(end < n);
    assert(s1.take(n) =~= x);
    assert(s2.take(n) =~= x);
    lemma_word_end_before(s1, s2, j + 1, n);
    assert(s1[j + 1] == x[j + 1]) by {
        assert(j + 1 <= end);
    }
    assert(s2[j + 1] == x[j + 1]);
    assert(s1[end] == x[end] && s2[end] == x[end]);
    let a = end + 1;
    assert(tile::placeholder_size(s1, j) == Some(a - j));
    assert(tile::placeholder_size(s2, j) == Some(a - j));
    let after = tile::header_mark(s1[a]);
    if after && a < n {
        assert(s2[a] == x[a] && s1[a] == x[a]);
    } else if !before && !after {
        lemma_trim_start_after(s1, a);
        lemma_trim_start_after(s2, a);
        reading_laws::lemma_after_space(s1, a);
        let k = tile::after_space(s1, a);
        assert(k < s1.len());
        assert(s1.skip(k)[0] == s1[k]);
        lemma_begins_end(s1, k, o.sigil);
        lemma_begins_end(s1, k, o.open);
        if k < n {
            assert forall|i: int| a <= i < k implies chars::is_space(#[trigger] s2[i]) by {
                assert(s1[i] == x[i] && s2[i] == x[i]);
                assert(chars::is_space(s1[i]));
            }
            assert(s2[k] == x[k] && s1[k] == x[k]);
            reading_laws::lemma_after_space_is(s2, a, k);
            assert(s2.skip(k)[0] == s2[k]);
            lemma_begins_end(s2, k, o.sigil);
            lemma_begins_end(s2, k, o.open);
            if chars::stands_at(s2, k, o.sigil) {
                lemma_marks_before(x, r1, r2, k, o.sigil);
            }
            if chars::stands_at(s2, k, o.open) {
                lemma_marks_before(x, r1, r2, k, o.open);
            }
        } else {
            lemma_spaces_then(x, r1, a);
            lemma_spaces_then(x, r2, a);
            reading_laws::lemma_after_space(r1, 0);
            reading_laws::lemma_after_space(r2, 0);
            let t1 = tile::after_space(r1, 0);
            let t2 = tile::after_space(r2, 0);
            assert(k == n + t1);
            assert(s1[k] == r1[t1]);
            assert forall|i: int| a <= i < n implies chars::is_space(#[trigger] x[i]) by {
                assert(s1[i] == x[i]);
                assert(chars::is_space(s1[i]));
            }
            assert(s1.skip(k) =~= r1.skip(t1));
            assert(s2.skip(n + t2) =~= r2.skip(t2));
        }
    }
}

/// The place after white space that goes to the end of a text.
proof fn lemma_spaces_then(x: Seq<char>, r: Seq<char>, a: int)
    requires
        0 <= a <= x.len(),
    ensures
        (forall|i: int| a <= i < x.len() ==> chars::is_space(#[trigger] x[i]))
            ==> tile::after_space(x + r, a) == x.len() + tile::after_space(r, 0),
        tile::after_space(x + r, a) >= x.len() ==> tile::after_space(x + r, a) == x.len()
            + tile::after_space(r, 0),
    decreases x.len() - a,
{
    let s = x + r;
    if a == x.len() {
        lemma_after_space_behind(x, r, 0);
    } else {
        assert(s[a] == x[a]);
        if chars::is_space(x[a]) {
            lemma_spaces_then(x, r, a + 1);
        }
    }
}

/// A header that goes on before one rest goes on before the other.
proof fn lemma_passes_before(
    x: Seq<char>,
    r1: Seq<char>,
    r2: Seq<char>,
    o: OptionsV,
    j: int,
    depth: int,
    quote: Option<char>,
    before: bool,
)
    requires
        reading_laws::apart(o),
        rests(r1, r2),
        0 <= j <= x.len(),
        passes(x + r1, o, j, x.len() - j, depth, quote, before),
    ensures
        passes(x + r2, o, j, x.len() - j, depth, quote, before),
    decreases x.len() - j,
{
    if j < x.len() {
        let s1 = x + r1;
        let s2 = x + r2;
        assert(s1[j] == x[j] && s2[j] == x[j]);
        let (d, q) = stepped(x[j], depth, quote);
        lemma_passes_before(x, r1, r2, o, j + 1, d, q, tile::header_mark(x[j]));
        if chars::stands_at(s2, j, o.open) {
            lemma_marks_before(x, r1, r2, j, o.open);
        }
        if joined(s1, o, j, before) {
            lemma_joined_before(x, r1, r2, o, j, before);
        }
    }
}

/// A header goes on in a text behind another as it does in the text.
proof fn lemma_passes_behind(
    x: Seq<char>,
    z: Seq<char>,
    o: OptionsV,
    j: int,
    n: int,
    depth: int,
    quote: Option<char>,
    b1: bool,
    b2: bool,
)
    requires
        0 <= j,
        0 <= n,
        j + n <= z.len(),
        b1 == b2 || n == 0 || z[j] != '{',
    ensures
        passes(x + z, o, x.len() + j, n, depth, quote, b1) == passes(
            z,
            o,
            j,
            n,
            depth,
            quote,
            b2,
        ),
    decreases n,
{
    if n > 0 {
        let s = x + z;
        assert(s[x.len() + j] == z[j]);
        let (d, q) = stepped(z[j], depth, quote);
        let b = tile::header_mark(z[j]);
        lemma_passes_behind(x, z, o, j + 1, n - 1, d, q, b, b);
        lemma_stands_behind(x, z, j, o.open);
        lemma_joined_behind(x, z, o, j, b1);
    }
}

// ---------------------------------------------------------------------
// Headers that are spaced otherwise
// ---------------------------------------------------------------------

/// What walking through two texts in turn leads to.
proof fn lemma_walked_on(u: Seq<char>, v: Seq<char>, depth: int, quote: Option<char>)
    ensures
        ({
            let (d, q) = walked(u, depth, quote);
            walked(u + v, depth, quote) == walked(v, d, q)
        }),
    decreases u.len(),
{
    if u.len() == 0 {
        assert(u + v =~= v);
    } else {
        let (d, q) = stepped(u[0], depth, quote);
        lemma_walked_on(u.drop_first(), v, d, q);
        assert((u + v).drop_first() =~= u.drop_first() + v);
        assert((u + v)[0] == u[0]);
    }
}

/// Whether a quote that may be open is one.
pub open spec fn is_quote(quote: Option<char>) -> bool {
    quote matches Some(q) ==> q == '"' || q == '\''
}

/// A quote that is open is one.
proof fn lemma_walked_quote(u: Seq<char>, depth: int, quote: Option<char>)
    requires
        is_quote(quote),
    ensures
        is_quote(walked(u, depth, quote).1),
    decreases u.len(),
{
    if u.len() > 0 {
        let (d, q) = stepped(u[0], depth, quote);
        lemma_walked_quote(u.drop_first(), d, q);
    }
}

/// The mark behind some characters.
pub open spec fn mark_behind(s: Seq<char>, pos: int, n: int, before: bool) -> bool {
    if n > 0 {
        tile::header_mark(s[pos + n - 1])
    } else {
        before
    }
}

/// A header goes on part by part.
proof fn lemma_passes_parts(
    s: Seq<char>,
    o: OptionsV,
    pos: int,
    a: int,
    b: int,
    depth: int,
    quote: Option<char>,
    before: bool,
)
    requires
        0 <= pos,
        0 <= a,
        0 <= b,
        pos + a + b <= s.len(),
    ensures
        ({
            let (d, q) = walked(s.subrange(pos, pos + a), depth, quote);
            passes(s, o, pos, a + b, depth, quote, before) == (passes(
                s,
                o,
                pos,
                a,
                depth,
                quote,
                before,
            ) && passes(s, o, pos + a, b, d, q, mark_behind(s, pos, a, before)))
        }),
    decreases a,
{
    if a == 0 {
        assert(s.subrange(pos, pos).len() == 0);
    } else {
        let (d, q) = stepped(s[pos], depth, quote);
        lemma_passes_parts(s, o, pos + 1, a - 1, b, d, q, tile::header_mark(s[pos]));
        assert(s.subrange(pos, pos + a).drop_first() =~= s.subrange(pos + 1, pos + a));
    }
}

/// Whether a character is white space or a backslash.
pub open spec fn thin(c: char) -> bool {
    chars::is_space(c) || c == '\\'
}

/// A header goes on through white space and backslashes, and they do not
/// matter to its brackets and quotes.
proof fn lemma_thin_passes(
    s: Seq<char>,
    o: OptionsV,
    pos: int,
    n: int,
    depth: int,
    quote: Option<char>,
    before: bool,
)
    requires
        reading_laws::apart(o),
        0 <= pos,
        0 <= n,
        pos + n <= s.len(),
        is_quote(quote),
        forall|i: int| pos <= i < pos + n ==> thin(#[trigger] s[i]),
    ensures
        passes(s, o, pos, n, depth, quote, before),
        walked(s.subrange(pos, pos + n), depth, quote) == (depth, quote),
    decreases n,
{
    if n > 0 {
        let c = s[pos];
        assert(thin(c));
        lemma_thin_passes(s, o, pos + 1, n - 1, depth, quote, tile::header_mark(c));
        assert(s.subrange(pos, pos + n).drop_first() =~= s.subrange(pos + 1, pos + n));
        assert(reading_laws::mark(o.open[0]));
        if chars::stands_at(s, pos, o.open) {
            assert(s.subrange(pos, pos + o.open.len())[0] == c);
        }
    }
}

/// The rests of a header that is spaced otherwise.
proof fn lemma_respaced_rests(w1: Seq<char>, w2: Seq<char>, y: Seq<char>)
    requires
        forall|i: int| 0 <= i < w1.len() ==> thin(#[trigger] w1[i]),
        forall|i: int| 0 <= i < w2.len() ==> chars::is_space(#[trigger] w2[i]),
        w1.len() == 0 ==> y.len() == 0 || y[0] == '"',
        w2.len() == 0 ==> y.len() > 0 && y[0] == '"',
    ensures
        rests(w1 + headed(y), w2 + headed(y)),
{
    let z = headed(y);
    let r1 = w1 + z;
    let r2 = w2 + z;
    lemma_no_header_mark('"');
    lemma_no_header_mark('{');
    if w1.len() > 0 {
        assert(r1[0] == w1[0]);
        assert(thin(w1[0]));
        lemma_no_header_mark(r1[0]);
    } else {
        assert(r1[0] == z[0]);
    }
    if w2.len() > 0 {
        assert(r2[0] == w2[0]);
        assert(chars::is_space(w2[0]));
    } else {
        assert(r2[0] == z[0]);
    }
    let t1 = tile::after_space(r1, 0);
    let t2 = tile::after_space(r2, 0);
    let t = tile::after_space(z, 0);
    reading_laws::lemma_after_space(r1, 0);
    reading_laws::lemma_after_space(z, 0);
    if t1 < r1.len() && tile::header_mark(r1[t1]) {
        if t1 < w1.len() {
            assert(thin(w1[t1]));
            lemma_no_header_mark(r1[t1]);
        }
        lemma_spaces_then(w1, z, 0);
        lemma_spaces_then(w2, z, 0);
        assert(t1 == w1.len() + t);
        assert(r1[t1] == z[t]);
        if w1.len() == 0 || w2.len() == 0 {
            assert(t == 0);
        }
        assert(t2 == w2.len() + t);
        assert(r1.skip(t1) =~= z.skip(t));
        assert(r2.skip(t2) =~= z.skip(t));
    }
}

/// A header that goes on to its end does so however it is spaced.
#[verifier::rlimit(30)]
#[verifier::spinoff_prover]
proof fn lemma_respaced(o: OptionsV, x: Seq<char>, w1: Seq<char>, w2: Seq<char>, y: Seq<char>)
    requires
        reading_laws::apart(o),
        forall|i: int| 0 <= i < w1.len() ==> thin(#[trigger] w1[i]),
        forall|i: int| 0 <= i < w2.len() ==> chars::is_space(#[trigger] w2[i]),
        w1.len() == 0 ==> y.len() == 0 || y[0] == '"',
        w2.len() == 0 ==> y.len() > 0 && y[0] == '"',
        runs(o, x + w1 + y),
    ensures
        runs(o, x + w2 + y),
{
    let z = headed(y);
    let r1 = w1 + z;
    let r2 = w2 + z;
    let s1 = headed(x + w1 + y);
    let s2 = headed(x + w2 + y);
    let n = x.len() as int;
    let a = w1.len() as int;
    let b = w2.len() as int;
    let m = y.len() as int;
    assert(s1 =~= x + r1);
    assert(s2 =~= x + r2);
    assert(s1 =~= (x + w1) + z);
    assert(s2 =~= (x + w2) + z);
    lemma_respaced_rests(w1, w2, y);
    assert(s1.subrange(0, n) =~= x);
    assert(s2.subrange(0, n) =~= x);
    let (d, q) = walked(x, 0, None);
    lemma_walked_quote(x, 0, None);
    lemma_passes_parts(s1, o, 0, n, a + m, 0, None, false);
    lemma_passes_parts(s2, o, 0, n, b + m, 0, None, false);
    lemma_passes_before(x, r1, r2, o, 0, 0, None, false);
    let e1 = mark_behind(s1, 0, n, false);
    let e2 = mark_behind(s2, 0, n, false);
    lemma_passes_parts(s1, o, n, a, m, d, q, e1);
    lemma_passes_parts(s2, o, n, b, m, d, q, e2);
    assert forall|i: int| n <= i < n + a implies thin(#[trigger] s1[i]) by {
        assert(s1[i] == w1[i - n]);
    }
    assert forall|i: int| n <= i < n + b implies thin(#[trigger] s2[i]) by {
        assert(s2[i] == w2[i - n]);
        assert(chars::is_space(w2[i - n]));
    }
    lemma_thin_passes(s1, o, n, a, d, q, e1);
    lemma_thin_passes(s2, o, n, b, d, q, e2);
    let f1 = mark_behind(s1, n, a, e1);
    let f2 = mark_behind(s2, n, b, e2);
    if a > 0 && b > 0 {
        assert(s1[n + a - 1] == w1[a - 1]);
        assert(s2[n + b - 1] == w2[b - 1]);
        lemma_no_header_mark(w1[a - 1]);
        lemma_no_header_mark(w2[b - 1]);
    } else if m > 0 {
        assert(z[0] == y[0]);
    }
    let g = if m == 0 || z[0] != '{' {
        false
    } else {
        f1
    };
    lemma_passes_behind(x + w1, z, o, 0, m, d, q, f1, g);
    lemma_passes_behind(x + w2, z, o, 0, m, d, q, f2, g);
    assert(s1.subrange(n, n + a) =~= w1);
    assert(s2.subrange(n, n + b) =~= w2);
    lemma_walked_on(x, w1, 0, None);
    lemma_walked_on(x, w2, 0, None);
    lemma_walked_on(x + w1, y, 0, None);
    lemma_walked_on(x + w2, y, 0, None);
}

/// A header that goes on to its end does so with its escaped quotes as
/// quotes.
proof fn lemma_unescaped_runs(o: OptionsV, x: Seq<char>, s: Seq<char>)
    requires
        reading_laws::apart(o),
        runs(o, x + s),
    ensures
        runs(o, x + tile::unescaped(s)),
    decreases s.len(),
{
    let none = Seq::<char>::empty();
    if s.len() == 0 {
    } else if s.len() > 1 && s[0] == '\\' && s[1] == '"' {
        let y = s.skip(1);
        assert(x + s =~= x + seq!['\\'] + y);
        lemma_respaced(o, x, seq!['\\'], none, y);
        let more = x.push('"');
        assert(x + none + y =~= more + s.skip(2));
        lemma_unescaped_runs(o, more, s.skip(2));
        assert(more + tile::unescaped(s.skip(2)) =~= x + tile::unescaped(s));
    } else {
        let more = x.push(s[0]);
        assert(x + s =~= more + s.drop_first());
        lemma_unescaped_runs(o, more, s.drop_first());
        assert(more + tile::unescaped(s.drop_first()) =~= x + tile::unescaped(s));
    }
}

/// A header that is read goes on to its end.
pub proof fn lemma_read_header_runs(raw: Seq<char>, o: OptionsV, span: Span, from: int)
    requires
        reading_laws::apart(o),
        0 <= from,
        tile::header(raw, o, span, from, 0, None, Seq::empty()).1 is Ok,
    ensures
        runs(o, tile::header(raw, o, span, from, 0, None, Seq::empty()).1->Ok_0),
        ({
            let (p, r) = tile::header(raw, o, span, from, 0, None, Seq::empty());
            from <= p && p < raw.len() && raw[p] == '{' && r->Ok_0 == raw.subrange(from, p)
        }),
{
    let none = Seq::<char>::empty();
    lemma_header_passes(raw, o, span, from, 0, None, none);
    let (p, r) = tile::header(raw, o, span, from, 0, None, none);
    let h = raw.subrange(from, p);
    assert(none + h =~= h);
    let lead = raw.take(from);
    let z = raw.skip(from);
    assert(raw =~= lead + z);
    lemma_passes_behind(lead, z, o, 0, p - from, 0, None, false, false);
    let r1 = raw.skip(p);
    let r2 = seq!['{', ' '];
    assert(z =~= h + r1);
    assert(r1[0] == '{');
    lemma_no_header_mark('{');
    assert(tile::after_space(r1, 0) == 0);
    assert(rests(r1, r2));
    lemma_passes_before(h, r1, r2, o, 0, 0, None, false);
    assert(headed(h) =~= h + r2);
}

// ---------------------------------------------------------------------
// Headers that are written again
// ---------------------------------------------------------------------

/// A text without the white space around it is a part of it.
proof fn lemma_trim_part(s: Seq<char>) -> (r: (int, int))
    ensures
        0 <= r.0 <= r.1 <= s.len(),
        chars::trim(s) == s.subrange(r.0, r.1),
        forall|i: int| 0 <= i < r.0 ==> chars::is_space(#[trigger] s[i]),
        forall|i: int| r.1 <= i < s.len() ==> chars::is_space(#[trigger] s[i]),
        r.0 < r.1 ==> !chars::is_space(s[r.0]),
{
    let a = reading_laws::lemma_trim_start_tail(s);
    let t = s.skip(a);
    let n = reading_laws::lemma_trim_end_take(t);
    chars::lemma_trim_start_first(s);
    assert(t.take(n) =~= s.subrange(a, a + n));
    assert forall|i: int| a + n <= i < s.len() implies chars::is_space(#[trigger] s[i]) by {
        assert(t[i - a] == s[i]);
    }
    if n > 0 {
        assert(t[0] == s[a]);
    }
    (a, a + n)
}

/// The last quote of a text is one.
proof fn lemma_last_quote(s: Seq<char>)
    ensures
        tile::last_quote(s) matches Some(i) ==> 0 <= i < s.len() && s[i] == '"',
    decreases s.len(),
{
    if s.len() > 0 && s.last() != '"' {
        lemma_last_quote(s.drop_last());
    }
}

/// A text as it is written in a header.
pub open spec fn rewritten(text: Seq<char>, sep: Option<Seq<char>>) -> Seq<char> {
    " "@ + text + (match sep {
        Some(t) => " sep \""@ + t + "\""@,
        None => Seq::empty(),
    }) + " "@
}

/// A header without a separator goes on to its end once it is written.
proof fn lemma_plain_rewritten(o: OptionsV, u: Seq<char>, a: int, b: int)
    requires
        reading_laws::apart(o),
        u.len() > 0,
        chars::is_space(u[0]),
        runs(o, u),
        0 <= a <= b <= u.len(),
        forall|i: int| 0 <= i < a ==> chars::is_space(#[trigger] u[i]),
        forall|i: int| b <= i < u.len() ==> chars::is_space(#[trigger] u[i]),
        a < b ==> !chars::is_space(u[a]),
    ensures
        runs(o, rewritten(u.subrange(a, b), None)),
{
    let text = u.subrange(a, b);
    let none = Seq::<char>::empty();
    let one = seq![' '];
    reveal_strlit(" ");
    assert(" "@ =~= one);
    assert(chars::is_space(' '));
    if a == b {
        assert(none + u + none =~= u);
        lemma_respaced(o, none, u, seq![' ', ' '], none);
        assert(none + seq![' ', ' '] + none =~= rewritten(text, None));
    } else {
        let lead = u.take(a);
        let tail = u.skip(b);
        assert(u.take(b) + tail + none =~= u);
        lemma_respaced(o, u.take(b), tail, one, none);
        let y = text + one;
        assert(u.take(b) + one + none =~= none + lead + y);
        lemma_respaced(o, none, lead, one, y);
        assert(none + one + y =~= rewritten(text, None));
    }
}

/// A header with a separator goes on to its end once it is written.
proof fn lemma_separated_rewritten(
    o: OptionsV,
    u: Seq<char>,
    a: int,
    b: int,
    c: int,
    i: int,
    k: int,
)
    requires
        reading_laws::apart(o),
        u.len() > 0,
        chars::is_space(u[0]),
        runs(o, u),
        0 <= a <= b,
        b < c,
        c + 3 <= i,
        i + 1 < k <= u.len(),
        forall|j: int| 0 <= j < a ==> chars::is_space(#[trigger] u[j]),
        forall|j: int| b <= j < c ==> chars::is_space(#[trigger] u[j]),
        forall|j: int| c + 3 <= j < i ==> chars::is_space(#[trigger] u[j]),
        forall|j: int| k <= j < u.len() ==> chars::is_space(#[trigger] u[j]),
        a < b ==> !chars::is_space(u[a]),
        u.subrange(c, c + 3) == seq!['s', 'e', 'p'],
        u[i] == '"',
        u[k - 1] == '"',
    ensures
        runs(o, rewritten(u.subrange(a, b), Some(u.subrange(i + 1, k - 1)))),
{
    let text = u.subrange(a, b);
    let v = u.subrange(i + 1, k - 1);
    let none = Seq::<char>::empty();
    let one = seq![' '];
    let word = seq!['s', 'e', 'p'];
    let quoted = u.subrange(i, k);
    reveal_strlit(" ");
    reveal_strlit(" sep \"");
    reveal_strlit("\"");
    assert(" "@ =~= one);
    assert(" sep \""@ =~= one + word + one + seq!['"']);
    assert("\""@ =~= seq!['"']);
    assert(chars::is_space(' '));
    assert(quoted =~= seq!['"'] + v + seq!['"']);
    let tail = u.skip(k);
    assert(u.take(k) + tail + none =~= u);
    lemma_respaced(o, u.take(k), tail, one, none);
    let y2 = quoted + one;
    let gap = u.subrange(c + 3, i);
    assert(u.take(k) + one + none =~= u.take(c + 3) + gap + y2);
    assert(y2[0] == '"');
    lemma_respaced(o, u.take(c + 3), gap, one, y2);
    let y3 = word + one + y2;
    assert(u.take(c + 3) =~= u.take(c) + word);
    assert(u.take(c + 3) + one + y2 =~= u.take(c) + y3);
    let goal = rewritten(text, Some(v));
    if a == b {
        assert forall|j: int| 0 <= j < c implies chars::is_space(#[trigger] u.take(c)[j]) by {
            assert(chars::is_space(u[j]));
        }
        assert(none + u.take(c) + y3 =~= u.take(c) + y3);
        lemma_respaced(o, none, u.take(c), seq![' ', ' '], y3);
        assert(none + seq![' ', ' '] + y3 =~= goal);
    } else {
        let space = u.subrange(b, c);
        assert(u.take(b) + space + y3 =~= u.take(c) + y3);
        lemma_respaced(o, u.take(b), space, one, y3);
        let lead = u.take(a);
        let y4 = text + one + y3;
        assert(u.take(b) + one + y3 =~= none + lead + y4);
        lemma_respaced(o, none, lead, one, y4);
        assert(none + one + y4 =~= goal);
    }
}

/// The header of a projection that is read goes on to its end once it is
/// written.
pub proof fn lemma_header_rewritten(o: OptionsV, h: Seq<char>)
    requires
        reading_laws::apart(o),
        h.len() > 0,
        chars::is_space(h[0]),
        runs(o, h),
    ensures
        ({
            let (text, sep) = tile::sep_split(h);
            runs(o, rewritten(chars::trim(text), sep))
        }),
{
    let none = Seq::<char>::empty();
    assert(none + h =~= h);
    lemma_unescaped_runs(o, none, h);
    let u = tile::unescaped(h);
    assert(none + u =~= u);
    assert(u.len() > 0 && u[0] == h[0]);
    let k = reading_laws::lemma_trim_end_take(u);
    let t = u.take(k);
    let (text, sep) = tile::sep_split(h);
    if sep is None {
        assert(text == t);
        let (a, b) = lemma_trim_part(t);
        assert(t.subrange(a, b) =~= u.subrange(a, b));
        assert forall|i: int| 0 <= i < a implies chars::is_space(#[trigger] u[i]) by {
            assert(t[i] == u[i]);
        }
        assert forall|i: int| b <= i < u.len() implies chars::is_space(#[trigger] u[i]) by {
            if i < k {
                assert(t[i] == u[i]);
            }
        }
        if a < b {
            assert(t[a] == u[a]);
        }
        lemma_plain_rewritten(o, u, a, b);
    } else {
        let q = t.drop_last();
        lemma_last_quote(q);
        let i = tile::last_quote(q)->0;
        let before = q.take(i);
        let e = reading_laws::lemma_trim_end_take(before);
        let head = before.take(e);
        reveal_strlit(" sep");
        assert(chars::ends(head, " sep"@));
        let c = e - 3;
        assert(head.subrange(e - 4, e) == " sep"@);
        assert(u.subrange(c, e) =~= seq!['s', 'e', 'p']) by {
            assert forall|j: int| 0 <= j < 3 implies u.subrange(c, e)[j] == seq!['s', 'e', 'p'][j] by {
                assert(head.subrange(e - 4, e)[j + 1] == " sep"@[j + 1]);
            }
        }
        assert(u[c - 1] == ' ') by {
            assert(head.subrange(e - 4, e)[0] == " sep"@[0]);
        }
        let lead = head.take(c);
        let f = reading_laws::lemma_trim_end_take(lead);
        let own = lead.take(f);
        assert(text == own);
        let (a, b) = lemma_trim_part(own);
        assert(own.subrange(a, b) =~= u.subrange(a, b));
        assert(chars::is_space(' '));
        assert(f <= c - 1) by {
            if f == c {
                assert(lead[c - 1] == ' ');
            }
        }
        assert forall|j: int| 0 <= j < a implies chars::is_space(#[trigger] u[j]) by {
            assert(own[j] == u[j]);
        }
        assert forall|j: int| b <= j < c implies chars::is_space(#[trigger] u[j]) by {
            if j < f {
                assert(own[j] == u[j]);
            } else {
                assert(lead[j] == u[j]);
            }
        }
        assert forall|j: int| c + 3 <= j < i implies chars::is_space(#[trigger] u[j]) by {
            assert(before[j] == u[j]);
        }
        if a < b {
            assert(own[a] == u[a]);
        }
        assert(u[i] == '"') by {
            assert(q[i] == u[i]);
        }
        assert(u[k - 1] == '"') by {
            assert(t.last() == u[k - 1]);
        }
        assert(q.skip(i + 1) =~= u.subrange(i + 1, k - 1));
        lemma_separated_rewritten(o, u, a, b, c, i, k);
    }
}

} // verus!
