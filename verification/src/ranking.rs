//! Ranking: relevance scores, the order in which results are listed, and the
//! selection of the best few.
//!
//! A score is kept as the bit pattern of an IEEE 754 double. For the patterns
//! of zero up to one, the order of the patterns as integers is the order of
//! the numbers they stand for, so scores are compared as integers.

use vstd::prelude::*;

verus! {

/// The bit pattern of the double `1.0`.
pub const ONE: u64 = 0x3FF0_0000_0000_0000;

/// The bit pattern of positive infinity.
pub const INFINITY: u64 = 0x7FF0_0000_0000_0000;

/// The score that the bit pattern `bits` is taken for: itself where it stands
/// for a number from zero to one; one where it stands for a greater number or
/// for positive infinity; zero for every other pattern, which are the
/// negative numbers and those that are no number.
pub open spec fn unit_score(bits: u64) -> u64 {
    if bits <= ONE {
        bits
    } else if bits <= INFINITY {
        ONE
    } else {
        0
    }
}

/// Brings the bit pattern of a score into the range from zero to one.
pub fn to_unit_score(bits: u64) -> (score: u64)
    ensures
        score == unit_score(bits),
        score <= ONE,
{
    if bits <= ONE {
        bits
    } else if bits <= INFINITY {
        ONE
    } else {
        0
    }
}

/// A document found for a query, and how well it answers it.
#[derive(Clone, Copy, Debug, PartialEq, Eq, Structural)]
pub struct QueryResult {
    /// The document's key: its position in the catalog.
    pub key: usize,
    /// The relevance, as the bit pattern of a double.
    pub score: u64,
}

impl QueryResult {
    /// The result with its score brought into the range from zero to one.
    pub open spec fn with_unit_score(self) -> QueryResult {
        QueryResult { key: self.key, score: unit_score(self.score) }
    }
}

/// The results of `hits`, each with its score brought into the range from
/// zero to one.
pub open spec fn unit_hits(hits: Seq<QueryResult>) -> Set<QueryResult> {
    Set::new(
        |h: QueryResult|
            exists|i: int| 0 <= i < hits.len() && h == (#[trigger] hits[i]).with_unit_score(),
    )
}

/// Whether `a` is listed before `b`: it has the higher score, or the same
/// score and the lower key.
pub open spec fn outranks(a: QueryResult, b: QueryResult) -> bool {
    a.score > b.score || (a.score == b.score && a.key < b.key)
}

/// Tells whether `a` is listed before `b`.
pub fn is_listed_before(a: &QueryResult, b: &QueryResult) -> (before: bool)
    ensures
        before == outranks(*a, *b),
{
    a.score > b.score || (a.score == b.score && a.key < b.key)
}

/// Whether each result in `out` is listed before all that follow it.
pub open spec fn is_ranked(out: Seq<QueryResult>) -> bool {
    forall|i: int, j: int| 0 <= i < j < out.len() ==> outranks(#[trigger] out[i], #[trigger] out[j])
}

/// Whether `out` lists the best `limit` results among `hits`, best first:
/// it holds results of `hits` only, in ranked order, and a result of `hits`
/// is left out only where `out` is full of results that outrank it.
pub open spec fn is_ranking(out: Seq<QueryResult>, hits: Set<QueryResult>, limit: nat) -> bool {
    &&& out.len() <= limit
    &&& forall|i: int| 0 <= i < out.len() ==> hits.contains(#[trigger] out[i])
    &&& is_ranked(out)
    &&& forall|h: QueryResult| #[trigger]
        hits.contains(h) && !out.contains(h) ==> out.len() == limit && forall|i: int|
            0 <= i < out.len() ==> outranks(#[trigger] out[i], h)
}

/// Two rankings of the same results agree up to `i` and beyond: the one does
/// not list a better result at `i` than the other.
proof fn lemma_ranking_not_better(
    a: Seq<QueryResult>,
    b: Seq<QueryResult>,
    hits: Set<QueryResult>,
    limit: nat,
    i: int,
)
    requires
        is_ranking(a, hits, limit),
        is_ranking(b, hits, limit),
        0 <= i < a.len(),
        i < b.len(),
        forall|j: int| 0 <= j < i ==> a[j] == b[j],
    ensures
        !outranks(a[i], b[i]),
{
    if outranks(a[i], b[i]) {
        let x = a[i];
        assert(hits.contains(x));
        if b.contains(x) {
            let m = choose|m: int| 0 <= m < b.len() && b[m] == x;
            if m < i {
                assert(outranks(a[m], a[i]));
            } else if m > i {
                assert(outranks(b[i], b[m]));
            }
        } else {
            assert(outranks(b[i], x));
        }
    }
}

/// Two rankings of the same results with the same limit agree on a common
/// stretch from the start.
proof fn lemma_ranking_prefix(
    a: Seq<QueryResult>,
    b: Seq<QueryResult>,
    hits: Set<QueryResult>,
    limit: nat,
    n: int,
)
    requires
        is_ranking(a, hits, limit),
        is_ranking(b, hits, limit),
        0 <= n <= a.len(),
        n <= b.len(),
    ensures
        forall|j: int| 0 <= j < n ==> a[j] == b[j],
    decreases n,
{
    if n > 0 {
        lemma_ranking_prefix(a, b, hits, limit, n - 1);
        lemma_ranking_not_better(a, b, hits, limit, n - 1);
        lemma_ranking_not_better(b, a, hits, limit, n - 1);
    }
}

/// One ranking is not a proper start of another.
proof fn lemma_ranking_not_shorter(
    a: Seq<QueryResult>,
    b: Seq<QueryResult>,
    hits: Set<QueryResult>,
    limit: nat,
)
    requires
        is_ranking(a, hits, limit),
        is_ranking(b, hits, limit),
    ensures
        a.len() >= b.len(),
{
    if a.len() < b.len() {
        lemma_ranking_prefix(a, b, hits, limit, a.len() as int);
        let x = b[a.len() as int];
        assert(hits.contains(x));
        if a.contains(x) {
            let m = choose|m: int| 0 <= m < a.len() && a[m] == x;
            assert(outranks(b[m], b[a.len() as int]));
        }
    }
}

/// The results and the limit determine the ranking: there is at most one.
pub proof fn lemma_ranking_unique(
    a: Seq<QueryResult>,
    b: Seq<QueryResult>,
    hits: Set<QueryResult>,
    limit: nat,
)
    requires
        is_ranking(a, hits, limit),
        is_ranking(b, hits, limit),
    ensures
        a == b,
{
    lemma_ranking_not_shorter(a, b, hits, limit);
    lemma_ranking_not_shorter(b, a, hits, limit);
    lemma_ranking_prefix(a, b, hits, limit, a.len() as int);
    assert(a =~= b);
}

/// Whether `place` is where `hit` belongs in the ranked `a`: behind the
/// results that outrank it, and before the first that does not.
pub open spec fn is_place(a: Seq<QueryResult>, hit: QueryResult, place: int) -> bool {
    &&& 0 <= place <= a.len()
    &&& forall|j: int| 0 <= j < place ==> outranks(#[trigger] a[j], hit)
    &&& place < a.len() ==> !outranks(a[place], hit)
}

/// The ranking `a` of at most `limit` results after `hit` has been offered
/// for the place `place`: unchanged where `hit` is listed already or `a` is
/// full of better results; else with `hit` in its place, and without its
/// last result where it would hold more than `limit`.
pub open spec fn with_hit(a: Seq<QueryResult>, hit: QueryResult, place: int, limit: nat) -> Seq<
    QueryResult,
> {
    if (place < a.len() && a[place] == hit) || place >= limit {
        a
    } else if a.len() < limit {
        a.insert(place, hit)
    } else {
        a.insert(place, hit).take(limit as int)
    }
}

/// A ranking of the results seen, with one more result put in its place, is a
/// ranking of those and that one.
pub proof fn lemma_with_hit(
    a: Seq<QueryResult>,
    seen: Set<QueryResult>,
    hit: QueryResult,
    place: int,
    limit: nat,
)
    requires
        is_ranking(a, seen, limit),
        is_place(a, hit, place),
    ensures
        is_ranking(with_hit(a, hit, place, limit), seen.insert(hit), limit),
{
    let n = a.len() as int;
    let p = place;
    let b = with_hit(a, hit, place, limit);
    if p < n && a[p] == hit {
        assert(seen.insert(hit) =~= seen);
    } else if p >= limit {
        assert forall|h: QueryResult| #[trigger]
            seen.insert(hit).contains(h) && !a.contains(h) implies a.len() == limit
            && forall|i: int| 0 <= i < a.len() ==> outranks(#[trigger] a[i], h) by {
            if h != hit {
                assert(seen.contains(h));
            }
        }
    } else {
        if p < n {
            assert(outranks(hit, a[p]));
        }
        assert forall|j: int| p <= j < n implies outranks(hit, #[trigger] a[j]) by {
            if j > p {
                assert(outranks(a[p], a[j]));
            }
        }
        assert(n == limit ==> b.len() == n);
        assert(n < limit ==> b.len() == n + 1);
        assert forall|j: int| 0 <= j < b.len() implies #[trigger] b[j] == if j < p {
            a[j]
        } else if j == p {
            hit
        } else {
            a[j - 1]
        } by {}
        assert(b[p] == hit);
        assert forall|i: int, j: int| 0 <= i < j < b.len() implies outranks(
            #[trigger] b[i],
            #[trigger] b[j],
        ) by {
            if j < p {
                assert(outranks(a[i], a[j]));
            } else if i > p {
                assert(outranks(a[i - 1], a[j - 1]));
            } else if i < p && j > p {
                assert(outranks(a[i], a[j - 1]));
            }
        }
        assert forall|h: QueryResult| #[trigger]
            seen.insert(hit).contains(h) && !b.contains(h) implies b.len() == limit
            && forall|i: int| 0 <= i < b.len() ==> outranks(#[trigger] b[i], h) by {
            assert(h != hit);
            assert(seen.contains(h));
            if a.contains(h) {
                let m = choose|m: int| 0 <= m < a.len() && a[m] == h;
                if m < p {
                    assert(b[m] == h);
                } else if m + 1 < b.len() {
                    assert(b[m + 1] == h);
                } else {
                    assert forall|i: int| 0 <= i < b.len() implies outranks(#[trigger] b[i], h) by {
                        if i < p {
                            assert(outranks(a[i], a[m]));
                        } else if i > p {
                            assert(outranks(a[i - 1], a[m]));
                        }
                    }
                }
            } else {
                assert(n == limit);
                assert forall|i: int| 0 <= i < b.len() implies outranks(#[trigger] b[i], h) by {
                    if i < p {
                        assert(outranks(a[i], h));
                    } else if i > p {
                        assert(outranks(a[i - 1], h));
                    } else {
                        assert(outranks(a[p], h));
                    }
                }
            }
        }
    }
}

/// Every result has a place in every list.
pub proof fn lemma_place_exists(a: Seq<QueryResult>, hit: QueryResult) -> (place: int)
    ensures
        is_place(a, hit, place),
    decreases a.len(),
{
    if a.len() > 0 && outranks(a[0], hit) {
        let rest = a.drop_first();
        let q = lemma_place_exists(rest, hit);
        assert forall|j: int| 0 <= j < q + 1 implies outranks(#[trigger] a[j], hit) by {
            if j > 0 {
                assert(a[j] == rest[j - 1]);
            }
        }
        assert(q + 1 < a.len() ==> a[q + 1] == rest[q]);
        q + 1
    } else {
        0
    }
}

/// Puts `hit` in its place among the best `limit` results seen so far.
fn insert_ranked(
    best: &mut Vec<QueryResult>,
    hit: QueryResult,
    limit: usize,
    Ghost(seen): Ghost<Set<QueryResult>>,
)
    requires
        is_ranking(old(best)@, seen, limit as nat),
    ensures
        is_ranking(final(best)@, seen.insert(hit), limit as nat),
{
    let ghost a = best@;
    let n = best.len();
    let mut p: usize = 0;
    while p < n && is_listed_before(&best[p], &hit)
        invariant
            best@ == a,
            n == a.len(),
            p <= n,
            forall|j: int| 0 <= j < p ==> outranks(#[trigger] a[j], hit),
        decreases n - p,
    {
        p += 1;
    }
    proof {
        lemma_with_hit(a, seen, hit, p as int, limit as nat);
    }
    if p < n && best[p].key == hit.key && best[p].score == hit.score {
        return;
    }
    if p >= limit {
        return;
    }
    best.insert(p, hit);
    if best.len() > limit {
        best.truncate(limit);
    }
    assert(best@ =~= with_hit(a, hit, p as int, limit as nat));
}

/// The best `limit` results among `hits`, best first. A result that `hits`
/// holds more than once is listed once.
pub fn rank(hits: &Vec<QueryResult>, limit: usize) -> (out: Vec<QueryResult>)
    ensures
        is_ranking(out@, hits@.to_set(), limit as nat),
{
    let mut best: Vec<QueryResult> = Vec::new();
    let mut i: usize = 0;
    assert(hits@.take(0).to_set() =~= Set::<QueryResult>::empty());
    while i < hits.len()
        invariant
            i <= hits@.len(),
            is_ranking(best@, hits@.take(i as int).to_set(), limit as nat),
        decreases hits@.len() - i,
    {
        let ghost seen = hits@.take(i as int).to_set();
        insert_ranked(&mut best, hits[i], limit, Ghost(seen));
        proof {
            let next = hits@.take(i + 1);
            assert(next.drop_last() == hits@.take(i as int));
            assert forall|h: QueryResult| next.to_set().contains(h) == seen.insert(
                hits@[i as int],
            ).contains(h) by {
                if next.contains(h) {
                    let m = choose|m: int| 0 <= m < next.len() && next[m] == h;
                    if m < i {
                        assert(hits@.take(i as int)[m] == h);
                    }
                }
                if hits@.take(i as int).contains(h) {
                    let m = choose|m: int| 0 <= m < i && hits@.take(i as int)[m] == h;
                    assert(next[m] == h);
                }
                if h == hits@[i as int] {
                    assert(next[i as int] == h);
                }
            }
            assert(next.to_set() =~= seen.insert(hits@[i as int]));
        }
        i += 1;
    }
    assert(hits@.take(hits@.len() as int) == hits@);
    best
}

/// The number of results that a query gives at most.
pub const LIMIT: usize = 10;

/// The best `LIMIT` results among `hits`, best first, each with its score
/// brought into the range from zero to one.
pub fn best_results(hits: &Vec<QueryResult>) -> (out: Vec<QueryResult>)
    ensures
        is_ranking(out@, unit_hits(hits@), LIMIT as nat),
        forall|i: int| 0 <= i < out@.len() ==> (#[trigger] out@[i]).score <= ONE,
{
    let mut scored: Vec<QueryResult> = Vec::new();
    let mut i: usize = 0;
    while i < hits.len()
        invariant
            i <= hits@.len(),
            scored@.len() == i,
            forall|j: int| 0 <= j < i ==> (#[trigger] scored@[j]) == hits@[j].with_unit_score(),
        decreases hits@.len() - i,
    {
        scored.push(QueryResult { key: hits[i].key, score: to_unit_score(hits[i].score) });
        i += 1;
    }
    proof {
        assert forall|h: QueryResult| scored@.to_set().contains(h) == unit_hits(hits@).contains(
            h,
        ) by {
            if scored@.contains(h) {
                let m = choose|m: int| 0 <= m < scored@.len() && scored@[m] == h;
                assert(h == hits@[m].with_unit_score());
            }
            if unit_hits(hits@).contains(h) {
                let m = choose|m: int| 0 <= m < hits@.len() && h == hits@[m].with_unit_score();
                assert(scored@[m] == h);
            }
        }
        assert(scored@.to_set() =~= unit_hits(hits@));
    }
    let out = rank(&scored, LIMIT);
    proof {
        assert forall|i: int| 0 <= i < out@.len() implies (#[trigger] out@[i]).score <= ONE by {
            assert(unit_hits(hits@).contains(out@[i]));
        }
    }
    out
}

} // verus!
