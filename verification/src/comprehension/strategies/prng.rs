//! A deterministic random stream for the ordering strategies.
//!
//! A stream is a seed, an increment and a position in the PCG walk; equal
//! triples give equal draws. Bounded draws reject the candidates that would
//! favour small results. A run of rejections always ends, because the walk
//! visits every state.
use crate::pcg;
use vstd::prelude::*;

verus! {

/// `<[T]>::swap` exchanges the elements at two positions of a slice and
/// leaves the others where they are; both positions have to be in range.
pub assume_specification<Elem>[ <[Elem]>::swap ](slice: &mut [Elem], a: usize, b: usize)
    requires
        a < old(slice)@.len(),
        b < old(slice)@.len(),
    ensures
        final(slice)@ == old(slice)@.update(a as int, old(slice)@[b as int]).update(
            b as int,
            old(slice)@[a as int],
        ),
;

/// The random stream's state.
#[derive(Debug)]
pub struct Prng {
    seed: u64,
    inc: u64,
    position: u64,
}

/// A state of the random stream.
pub struct Stream {
    pub seed: u64,
    pub inc: u64,
    pub position: nat,
}

/// The stream `n` draws on. Positions are counted without wrapping: the
/// walk repeats after as many draws as there are positions.
pub open spec fn ahead(s: Stream, n: nat) -> Stream {
    Stream { seed: s.seed, inc: s.inc, position: s.position + n }
}

/// The next draw of a stream.
pub open spec fn drawn(s: Stream) -> u64 {
    pcg::output_at(s.seed, s.inc, s.position)
}

/// Whether two states give the same draws.
pub open spec fn same_stream(a: Stream, b: Stream) -> bool {
    forall|n: nat| #[trigger] drawn(ahead(a, n)) == drawn(ahead(b, n))
}

/// The candidates below this are rejected for a draw below `n`: what `2^64`
/// leaves over when divided by `n`.
pub open spec fn reject_below(n: u64) -> int {
    0x1_0000_0000_0000_0000int % (n as int)
}

/// Whether the candidate `k` draws on is accepted for a draw below `n`.
pub open spec fn accepted(s: Stream, n: u64, k: nat) -> bool {
    drawn(ahead(s, k)) >= reject_below(n)
}

/// Whether the first `k` candidates are rejected and the next accepted.
pub open spec fn first_accepted(s: Stream, n: u64, k: nat) -> bool {
    accepted(s, n, k) && forall|e: nat| e < k ==> !#[trigger] accepted(s, n, e)
}

/// How many candidates are rejected before the first that is accepted.
pub open spec fn rejections(s: Stream, n: u64) -> nat {
    if exists|k: nat| first_accepted(s, n, k) {
        choose|k: nat| first_accepted(s, n, k)
    } else {
        0
    }
}

/// A draw below `n`: the first accepted candidate, reduced. Zero below
/// zero.
pub open spec fn bounded(s: Stream, n: u64) -> u64 {
    if n == 0 {
        0
    } else {
        drawn(ahead(s, rejections(s, n))) % n
    }
}

/// The stream after a draw below `n`.
pub open spec fn after_bounded(s: Stream, n: u64) -> Stream {
    if n == 0 {
        s
    } else {
        ahead(s, rejections(s, n) + 1)
    }
}

/// `s` with two elements exchanged.
pub open spec fn swapped<T>(s: Seq<T>, i: int, j: int) -> Seq<T> {
    s.update(i, s[j]).update(j, s[i])
}

/// Fisher-Yates from position `i` down: each position is exchanged with a
/// drawn one at or before it.
pub open spec fn fisher_yates<T>(s: Seq<T>, i: nat, r: Stream) -> Seq<T>
    decreases i,
{
    if i == 0 {
        s
    } else {
        fisher_yates(
            swapped(s, i as int, bounded(r, (i + 1) as u64) as int),
            (i - 1) as nat,
            after_bounded(r, (i + 1) as u64),
        )
    }
}

/// The stream after Fisher-Yates from position `i` down.
pub open spec fn after_fisher_yates(i: nat, r: Stream) -> Stream
    decreases i,
{
    if i == 0 {
        r
    } else {
        after_fisher_yates((i - 1) as nat, after_bounded(r, (i + 1) as u64))
    }
}

/// `s` shuffled with the stream `r`.
pub open spec fn shuffled<T>(s: Seq<T>, r: Stream) -> Seq<T> {
    if s.len() < 2 {
        s
    } else {
        fisher_yates(s, (s.len() - 1) as nat, r)
    }
}

// ---------------------------------------------------------------------
// Facts about streams
// ---------------------------------------------------------------------

proof fn lemma_ahead_adds(s: Stream, a: nat, b: nat)
    ensures
        ahead(ahead(s, a), b) == ahead(s, a + b),
{
}

proof fn lemma_same_stream_ahead(a: Stream, b: Stream, n: nat)
    requires
        same_stream(a, b),
    ensures
        same_stream(ahead(a, n), ahead(b, n)),
        drawn(ahead(a, n)) == drawn(ahead(b, n)),
{
    assert forall|m: nat| #[trigger] drawn(ahead(ahead(a, n), m)) == drawn(
        ahead(ahead(b, n), m),
    ) by {
        lemma_ahead_adds(a, n, m);
        lemma_ahead_adds(b, n, m);
        assert(drawn(ahead(a, n + m)) == drawn(ahead(b, n + m)));
    }
}

/// Two states that give the same draws give the same bounded draws.
pub proof fn lemma_same_stream_bounded(a: Stream, b: Stream, n: u64)
    requires
        same_stream(a, b),
    ensures
        bounded(a, n) == bounded(b, n),
        same_stream(after_bounded(a, n), after_bounded(b, n)),
{
    if n > 0 {
        assert forall|k: nat| #[trigger] accepted(a, n, k) == accepted(b, n, k) by {
            lemma_same_stream_ahead(a, b, k);
        }
        assert forall|k: nat| #[trigger] first_accepted(a, n, k) == first_accepted(b, n, k) by {
            assert(accepted(a, n, k) == accepted(b, n, k));
            if first_accepted(a, n, k) {
                assert forall|e: nat| e < k implies !#[trigger] accepted(b, n, e) by {
                    assert(accepted(a, n, e) == accepted(b, n, e));
                }
            }
            if first_accepted(b, n, k) {
                assert forall|e: nat| e < k implies !#[trigger] accepted(a, n, e) by {
                    assert(accepted(a, n, e) == accepted(b, n, e));
                }
            }
        }
        lemma_rejections_agree(a, b, n);
        lemma_same_stream_ahead(a, b, rejections(a, n));
        lemma_same_stream_ahead(a, b, rejections(a, n) + 1);
    }
}

/// Equal predicates have equal choices, where a choice exists.
proof fn lemma_rejections_agree(a: Stream, b: Stream, n: u64)
    requires
        n > 0,
        forall|k: nat| #[trigger] first_accepted(a, n, k) == first_accepted(b, n, k),
    ensures
        rejections(a, n) == rejections(b, n),
{
    if exists|k: nat| first_accepted(a, n, k) {
        let k = choose|k: nat| first_accepted(a, n, k);
        let m = rejections(b, n);
        assert(first_accepted(b, n, k));
        assert(first_accepted(b, n, m));
        if m < k {
            assert(!accepted(a, n, m));
            assert(first_accepted(a, n, m));
        }
        if k < m {
            assert(!accepted(b, n, k));
        }
    } else {
        assert forall|k: nat| !first_accepted(b, n, k) by {
            assert(!first_accepted(a, n, k));
        }
    }
}

/// There is only one first accepted candidate.
proof fn lemma_first_accepted_unique(s: Stream, n: u64, j: nat, k: nat)
    requires
        first_accepted(s, n, j),
        first_accepted(s, n, k),
    ensures
        j == k,
{
    if j < k {
        assert(!accepted(s, n, j));
    }
    if k < j {
        assert(!accepted(s, n, k));
    }
}

/// Some candidate is accepted.
proof fn lemma_some_accepted(s: Stream, n: u64) -> (k: nat)
    requires
        n > 0,
        s.inc % 2 == 1,
    ensures
        accepted(s, n, k),
        k < 0x1_0000_0000_0000_0000,
{
    let x = pcg::walk(s.seed as int, s.inc as int, s.position);
    let k = pcg::lemma_walk_reaches(x, s.inc as int, 1);
    pcg::lemma_walk_adds(s.seed as int, s.inc as int, s.position, k);
    pcg::lemma_high_output();
    assert(drawn(ahead(s, k)) == pcg::permuted(1));
    assert(reject_below(n) <= 0x8000_0000_0000_0000) by {
        let m = 0x1_0000_0000_0000_0000int;
        let d = n as int;
        if d > 0x8000_0000_0000_0000 {
            assert(m % d == m - d) by (nonlinear_arith)
                requires
                    0x8000_0000_0000_0000 < d < m,
                    m == 0x1_0000_0000_0000_0000,
            ;
        } else {
            assert(m % d < d) by (nonlinear_arith)
                requires
                    d > 0,
            ;
        }
    }
    k
}

/// The positions beyond the last repeat those from the first on.
proof fn lemma_wrapped(seed: u64, inc: u64, position: nat)
    requires
        inc % 2 == 1,
    ensures
        same_stream(
            Stream { seed, inc, position: position + 0x1_0000_0000_0000_0000 },
            Stream { seed, inc, position },
        ),
{
    let a = Stream { seed, inc, position: position + 0x1_0000_0000_0000_0000 };
    let b = Stream { seed, inc, position };
    assert forall|n: nat| #[trigger] drawn(ahead(a, n)) == drawn(ahead(b, n)) by {
        pcg::lemma_walk_period(seed as int, inc as int, position + n);
    }
}

impl Prng {
    #[verifier::type_invariant]
    spec fn odd_increment(self) -> bool {
        self.inc % 2 == 1
    }

    /// The state of the stream.
    pub closed spec fn stream(self) -> Stream {
        Stream { seed: self.seed, inc: self.inc, position: self.position as nat }
    }

    /// The stream of `seed` with the selector 0.
    pub fn new(seed: u64) -> (r: Self)
        ensures
            r.stream() == (Stream { seed, inc: 1, position: 0 }),
    {
        Prng { seed, inc: 1, position: 0 }
    }

    /// The stream of `seed` with the given selector: its increment is
    /// `2 * stream + 1`, reduced to 64 bits.
    pub fn with_stream(seed: u64, stream: u64) -> (r: Self)
        ensures
            r.stream() == (Stream {
                seed,
                inc: ((2 * stream + 1) % 0x1_0000_0000_0000_0000) as u64,
                position: 0,
            }),
    {
        let twice: u64 = 2u64.wrapping_mul(stream);
        assert(twice % 2 == 0 && twice == (2 * stream) % 0x1_0000_0000_0000_0000);
        Prng { seed, inc: twice.wrapping_add(1), position: 0 }
    }

    /// The next draw.
    pub fn next_u64(&mut self) -> (r: u64)
        ensures
            r == drawn(old(self).stream()),
            same_stream(final(self).stream(), ahead(old(self).stream(), 1)),
    {
        proof {
            use_type_invariant(&*self);
            lemma_wrapped(self.seed, self.inc, 0);
        }
        let v: u64 = pcg::pcg_seek(self.seed, self.inc, self.position);
        self.position = self.position.wrapping_add(1);
        proof {
            if old(self).position == u64::MAX {
                let a = self.stream();
                let b = ahead(old(self).stream(), 1);
                assert forall|n: nat| #[trigger] drawn(ahead(a, n)) == drawn(ahead(b, n)) by {
                    assert(drawn(
                        ahead(
                            Stream {
                                seed: self.seed,
                                inc: self.inc,
                                position: 0 + 0x1_0000_0000_0000_0000,
                            },
                            n,
                        ),
                    ) == drawn(
                        ahead(Stream { seed: self.seed, inc: self.inc, position: 0 }, n),
                    ));
                }
            }
        }
        v
    }

    /// A draw below `n`, without bias; zero where `n` is zero.
    pub fn next_bounded(&mut self, n: u64) -> (r: u64)
        ensures
            r == bounded(old(self).stream(), n),
            n > 0 ==> r < n,
            n > 0 ==> first_accepted(old(self).stream(), n, rejections(old(self).stream(), n)),
            same_stream(final(self).stream(), after_bounded(old(self).stream(), n)),
    {
        if n == 0 {
            return 0;
        }
        let threshold: u64 = ((u64::MAX - n) + 1) % n;
        proof {
            let m = 0x1_0000_0000_0000_0000int;
            let d = n as int;
            assert((m - d) % d == m % d) by (nonlinear_arith)
                requires
                    d > 0,
            ;
            use_type_invariant(&*self);
        }
        let ghost start = self.stream();
        let ghost goal = lemma_some_accepted(start, n);
        let ghost mut tried: nat = 0;
        loop
            invariant
                n > 0,
                threshold == reject_below(n),
                accepted(start, n, goal),
                tried <= goal,
                forall|e: nat| e < tried ==> !#[trigger] accepted(start, n, e),
                same_stream(self.stream(), ahead(start, tried)),
                start == old(self).stream(),
            decreases goal - tried,
        {
            let ghost here = self.stream();
            let candidate: u64 = self.next_u64();
            proof {
                lemma_same_stream_ahead(here, ahead(start, tried), 0);
                lemma_same_stream_ahead(here, ahead(start, tried), 1);
                lemma_ahead_adds(start, tried, 0);
                lemma_ahead_adds(start, tried, 1);
                assert(ahead(here, 0) == here);
                assert(candidate == drawn(ahead(start, tried)));
                assert forall|m: nat| #[trigger] drawn(ahead(self.stream(), m)) == drawn(
                    ahead(ahead(start, tried + 1), m),
                ) by {
                    assert(drawn(ahead(self.stream(), m)) == drawn(ahead(ahead(here, 1), m)));
                    assert(drawn(ahead(ahead(here, 1), m)) == drawn(
                        ahead(ahead(ahead(start, tried), 1), m),
                    ));
                }
            }
            if candidate >= threshold {
                proof {
                    assert(first_accepted(start, n, tried));
                    lemma_first_accepted_unique(start, n, tried, rejections(start, n));
                }
                return candidate % n;
            }
            proof {
                assert(!accepted(start, n, tried));
                tried = tried + 1;
            }
        }
    }

    /// Shuffle in place.
    pub fn shuffle<T>(&mut self, slice: &mut [T])
        ensures
            final(slice)@ == shuffled(old(slice)@, old(self).stream()),
            final(slice)@.len() == old(slice)@.len(),
            same_stream(
                final(self).stream(),
                if old(slice)@.len() < 2 {
                    old(self).stream()
                } else {
                    after_fisher_yates((old(slice)@.len() - 1) as nat, old(self).stream())
                },
            ),
    {
        let n: usize = slice.len();
        if n < 2 {
            return;
        }
        let mut i: usize = n - 1;
        let ghost mut r: Stream = self.stream();
        while i >= 1
            invariant
                i < n,
                n == slice@.len(),
                n == old(slice)@.len(),
                n >= 2,
                same_stream(self.stream(), r),
                fisher_yates(slice@, i as nat, r) == shuffled(old(slice)@, old(self).stream()),
                after_fisher_yates(i as nat, r) == after_fisher_yates(
                    (n - 1) as nat,
                    old(self).stream(),
                ),
            decreases i,
        {
            let bound: u64 = i as u64 + 1;
            let ghost here = self.stream();
            let ghost had = slice@;
            let j: u64 = self.next_bounded(bound);
            proof {
                lemma_same_stream_bounded(here, r, bound);
                let next = after_bounded(r, bound);
                assert forall|m: nat| #[trigger] drawn(ahead(self.stream(), m)) == drawn(
                    ahead(next, m),
                ) by {
                    assert(drawn(ahead(self.stream(), m)) == drawn(
                        ahead(after_bounded(here, bound), m),
                    ));
                }
            }
            slice.swap(i, j as usize);
            proof {
                assert(slice@ =~= swapped(had, i as int, j as int));
                r = after_bounded(r, bound);
            }
            i = i - 1;
        }
    }
}

// ---------------------------------------------------------------------
// Laws
// ---------------------------------------------------------------------

proof fn lemma_swapped_multiset<T>(s: Seq<T>, i: int, j: int)
    requires
        0 <= i < s.len(),
        0 <= j < s.len(),
    ensures
        swapped(s, i, j).to_multiset() =~= s.to_multiset(),
{
    broadcast use vstd::seq_lib::group_to_multiset_ensures;

    if i == j {
        assert(swapped(s, i, j) =~= s);
    } else {
        let a = s.update(i, s[j]);
        vstd::seq_lib::to_multiset_update(s, i, s[j]);
        vstd::seq_lib::to_multiset_update(a, j, s[i]);
    }
}

proof fn lemma_fisher_yates_permutes<T>(s: Seq<T>, i: nat, r: Stream)
    requires
        i < s.len(),
        s.len() <= u64::MAX,
    ensures
        fisher_yates(s, i, r).to_multiset() =~= s.to_multiset(),
        fisher_yates(s, i, r).len() == s.len(),
    decreases i,
{
    if i > 0 {
        let n = (i + 1) as u64;
        let j = bounded(r, n) as int;
        assert(0 <= j < n);
        lemma_swapped_multiset(s, i as int, j);
        lemma_fisher_yates_permutes(
            swapped(s, i as int, j),
            (i - 1) as nat,
            after_bounded(r, n),
        );
    }
}

/// A shuffle is a permutation: every element comes out as often as it went
/// in.
pub proof fn law_shuffle_permutes<T>(s: Seq<T>, r: Stream)
    requires
        s.len() <= u64::MAX,
    ensures
        shuffled(s, r).to_multiset() =~= s.to_multiset(),
        shuffled(s, r).len() == s.len(),
{
    if s.len() >= 2 {
        lemma_fisher_yates_permutes(s, (s.len() - 1) as nat, r);
    }
}

/// Equal streams give equal draws and leave equal streams.
pub proof fn law_equal_streams(a: Stream, b: Stream, n: u64)
    requires
        same_stream(a, b),
    ensures
        drawn(a) == drawn(b),
        same_stream(ahead(a, 1), ahead(b, 1)),
        bounded(a, n) == bounded(b, n),
        same_stream(after_bounded(a, n), after_bounded(b, n)),
{
    assert(ahead(a, 0) == a && ahead(b, 0) == b);
    lemma_same_stream_ahead(a, b, 0);
    lemma_same_stream_ahead(a, b, 1);
    lemma_same_stream_bounded(a, b, n);
}

} // verus!
