//! Ranking: the total order of search hits and the bounded collector that
//! keeps the best of them.

use vstd::prelude::*;

verus! {

/// A matching document with its score. A document is named by the number
/// of its segment and its number in that segment.
#[derive(Clone, Copy, PartialEq, Eq, Debug, Structural)]
pub struct Hit {
    pub score: u128,
    pub segment: usize,
    pub doc: usize,
}

/// `a` ranks strictly before `b`: by higher score, and among equal scores
/// by lower segment number, then by lower document number.
pub open spec fn outranks(a: Hit, b: Hit) -> bool {
    a.score > b.score || (a.score == b.score && (a.segment < b.segment || (a.segment == b.segment
        && a.doc < b.doc)))
}

/// The hits stand in strictly descending rank.
pub open spec fn ranked(hits: Seq<Hit>) -> bool {
    forall|i: int, j: int| 0 <= i < j < hits.len() ==> outranks(#[trigger] hits[i], #[trigger] hits[j])
}

/// `hits` is the ranking of the best `k` of `candidates`: at most `k` of
/// them, in rank order, and every candidate left out ranks behind all that
/// are in, which then number exactly `k`.
pub open spec fn is_top_k(hits: Seq<Hit>, k: int, candidates: Set<Hit>) -> bool {
    &&& hits.len() <= k
    &&& ranked(hits)
    &&& forall|i: int| 0 <= i < hits.len() ==> candidates.contains(#[trigger] hits[i])
    &&& forall|h: Hit| #[trigger] candidates.contains(h) && !hits.contains(h) ==> hits.len() == k
    &&& forall|h: Hit, i: int|
        #[trigger] candidates.contains(h) && !hits.contains(h) && 0 <= i < hits.len() ==> outranks(
            #[trigger] hits[i],
            h,
        )
}

/// The ranking of the best `k` of a set of candidates is unique: the order
/// of results is fixed by the candidates alone.
pub proof fn lemma_top_k_unique(a: Seq<Hit>, b: Seq<Hit>, k: int, candidates: Set<Hit>)
    requires
        is_top_k(a, k, candidates),
        is_top_k(b, k, candidates),
    ensures
        a == b,
{
    lemma_common_prefix(a, b, k, candidates, if a.len() <= b.len() { a.len() as int } else { b.len() as int });
    if a.len() < b.len() {
        lemma_not_in_shorter(a, b, a.len() as int);
    } else if b.len() < a.len() {
        lemma_not_in_shorter(b, a, b.len() as int);
    }
}

proof fn lemma_not_in_shorter(short: Seq<Hit>, long: Seq<Hit>, n: int)
    requires
        ranked(long),
        n == short.len(),
        n < long.len(),
        forall|i: int| 0 <= i < n ==> short[i] == long[i],
    ensures
        !short.contains(long[n]),
{
}

proof fn lemma_common_prefix(a: Seq<Hit>, b: Seq<Hit>, k: int, candidates: Set<Hit>, n: int)
    requires
        is_top_k(a, k, candidates),
        is_top_k(b, k, candidates),
        0 <= n <= a.len(),
        n <= b.len(),
    ensures
        forall|i: int| 0 <= i < n ==> a[i] == b[i],
    decreases n,
{
    if n > 0 {
        lemma_common_prefix(a, b, k, candidates, n - 1);
    }
}

/// Compares two hits by rank.
pub fn ranks_before(a: Hit, b: Hit) -> (r: bool)
    ensures
        r == outranks(a, b),
{
    a.score > b.score || (a.score == b.score && (a.segment < b.segment || (a.segment == b.segment
        && a.doc < b.doc)))
}

/// Keeps the best `limit` of the hits offered to it.
pub struct Collector {
    limit: usize,
    hits: Vec<Hit>,
    seen: Ghost<Set<Hit>>,
}

impl Collector {
    /// The hits kept are the best `limit` of those offered.
    pub closed spec fn wf(&self) -> bool {
        is_top_k(self.hits@, self.limit as int, self.seen@)
    }

    /// The number of hits to keep.
    pub closed spec fn limit(&self) -> int {
        self.limit as int
    }

    /// All hits offered so far.
    pub closed spec fn seen(&self) -> Set<Hit> {
        self.seen@
    }

    /// The hits kept, best first.
    pub closed spec fn hits(&self) -> Seq<Hit> {
        self.hits@
    }

    /// A collector that has seen nothing.
    pub fn new(limit: usize) -> (collector: Self)
        ensures
            collector.wf(),
            collector.limit() == limit,
            collector.seen() == Set::<Hit>::empty(),
    {
        Collector { limit, hits: Vec::new(), seen: Ghost(Set::empty()) }
    }

    /// Offers a hit that was not offered before.
    pub fn offer(&mut self, hit: Hit)
        requires
            old(self).wf(),
            !old(self).seen().contains(hit),
        ensures
            final(self).wf(),
            final(self).limit() == old(self).limit(),
            final(self).seen() == old(self).seen().insert(hit),
    {
        let ghost before = self.hits@;
        let ghost seen_before = self.seen@;
        let n = self.hits.len();
        let mut p = n;
        while p > 0 && ranks_before(hit, self.hits[p - 1])
            invariant
                p <= n,
                n == self.hits.len(),
                self.hits@ == before,
                forall|j: int| p <= j < n ==> outranks(hit, #[trigger] before[j]),
            decreases p,
        {
            p = p - 1;
        }
        if p == n && n == self.limit {
            self.seen = Ghost(seen_before.insert(hit));
        } else {
            self.hits.insert(p, hit);
            if self.hits.len() > self.limit {
                self.hits.pop();
            }
            self.seen = Ghost(seen_before.insert(hit));
            proof {
                let kept = self.hits@;
                assert forall|h: Hit| #[trigger]
                    self.seen@.contains(h) && !kept.contains(h) implies kept.len() == self.limit
                    && forall|i: int| 0 <= i < kept.len() ==> outranks(#[trigger] kept[i], h) by {
                    if h == hit {
                        if p < kept.len() {
                            assert(kept[p as int] == hit);
                        }
                    } else {
                        if before.contains(h) {
                            let j = choose|j: int| 0 <= j < before.len() && before[j] == h;
                            let gj = if j < p { j } else { j + 1 };
                            if gj < kept.len() {
                                assert(kept[gj] == h);
                            }
                        }
                    }
                }
            }
        }
    }

    /// Hands out the hits kept, best first.
    pub fn into_hits(self) -> (hits: Vec<Hit>)
        requires
            self.wf(),
        ensures
            hits@ == self.hits(),
            is_top_k(hits@, self.limit(), self.seen()),
    {
        self.hits
    }
}

} // verus!
