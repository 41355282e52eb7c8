//! Scoring and evaluation: every document that a query matches gets a score
//! that grows with the frequency of the query's terms in the document and
//! falls with the number of documents that hold them; the best hits of a
//! snapshot are collected in rank order.

use crate::analysis::AnalyzedView;
use crate::matching::{
    Leaf, LeafView, Match, is_match_list, leaf_matches, leaf_tf, leaf_views, match_docs,
    matching_docs,
};
use crate::ranking::{Collector, Hit, is_top_k};
use crate::segment::Segment;
use vstd::prelude::*;

verus! {

/// Term frequencies above this count no more than it.
pub const TF_CAP: usize = 0xffff;

/// The rarity factor of a term is at most one more than this.
pub const IDF_CAP: u128 = 0xffff;

/// The largest weight of a leaf in a document.
pub const MAX_WEIGHT: u128 = 0xffff_0000;

/// The smaller of two numbers.
pub open spec fn least(a: nat, b: nat) -> nat {
    if a <= b {
        a
    } else {
        b
    }
}

/// The weight of a leaf in a document: its frequency `tf` in the document,
/// capped, times one more than the capped ratio of the `total` number of
/// documents to the number `df` of documents that hold the leaf.
pub open spec fn weight(tf: nat, df: nat, total: nat) -> nat {
    if tf == 0 || df == 0 {
        0
    } else {
        least(tf, TF_CAP as nat) * (1 + least(total / df, IDF_CAP as nat))
    }
}

/// The weight does not fall when the frequency in the document grows.
pub proof fn lemma_weight_grows_with_tf(tf1: nat, tf2: nat, df: nat, total: nat)
    requires
        tf1 <= tf2,
    ensures
        weight(tf1, df, total) <= weight(tf2, df, total),
{
    if tf1 > 0 && df > 0 {
        let factor = 1 + least(total / df, IDF_CAP as nat);
        assert(least(tf1, TF_CAP as nat) * factor <= least(tf2, TF_CAP as nat) * factor)
            by (nonlinear_arith)
            requires
                least(tf1, TF_CAP as nat) <= least(tf2, TF_CAP as nat),
                factor >= 0,
        ;
    }
}

/// The weight does not grow when more documents hold the leaf.
pub proof fn lemma_weight_falls_with_df(tf: nat, df1: nat, df2: nat, total: nat)
    requires
        0 < df1 <= df2,
    ensures
        weight(tf, df1, total) >= weight(tf, df2, total),
{
    if tf > 0 {
        assert(total / df2 <= total / df1) by (nonlinear_arith)
            requires
                0 < df1 <= df2,
                total >= 0,
        ;
        let f1 = 1 + least(total / df1, IDF_CAP as nat);
        let f2 = 1 + least(total / df2, IDF_CAP as nat);
        let t = least(tf, TF_CAP as nat);
        assert(t * f2 <= t * f1) by (nonlinear_arith)
            requires
                f2 <= f1,
                t >= 0,
        ;
    }
}

/// A leaf that occurs in a document has a positive weight there, and no
/// weight is above `MAX_WEIGHT`.
pub proof fn lemma_weight_bounds(tf: nat, df: nat, total: nat)
    ensures
        weight(tf, df, total) <= MAX_WEIGHT,
        tf > 0 && df > 0 ==> weight(tf, df, total) > 0,
{
    if tf > 0 && df > 0 {
        let t = least(tf, TF_CAP as nat);
        let f = 1 + least(total / df, IDF_CAP as nat);
        assert(0 < t * f <= 0xffff * 0x10000) by (nonlinear_arith)
            requires
                0 < t <= 0xffff,
                0 < f <= 0x10000,
        ;
    }
}

/// Computes the weight of a leaf in a document.
pub fn weight_of(tf: usize, df: u128, total: u128) -> (w: u128)
    ensures
        w == weight(tf as nat, df as nat, total as nat),
        w <= MAX_WEIGHT,
{
    proof {
        lemma_weight_bounds(tf as nat, df as nat, total as nat);
    }
    if tf == 0 || df == 0 {
        0
    } else {
        let capped: u128 = if tf > TF_CAP {
            TF_CAP as u128
        } else {
            tf as u128
        };
        let ratio: u128 = total / df;
        let rarity: u128 = if ratio > IDF_CAP {
            IDF_CAP
        } else {
            ratio
        };
        capped * (1 + rarity)
    }
}

/// The number of documents in the first `n` segments that hold `leaf`.
pub open spec fn leaf_df(segments: Seq<Seq<AnalyzedView>>, leaf: LeafView, n: int) -> nat
    decreases n,
{
    if n <= 0 {
        0
    } else {
        leaf_df(segments, leaf, n - 1) + matching_docs(
            segments[n - 1],
            leaf,
            segments[n - 1].len() as int,
        ).len()
    }
}

/// The number of documents in the first `n` segments.
pub open spec fn total_docs(segments: Seq<Seq<AnalyzedView>>, n: int) -> nat
    decreases n,
{
    if n <= 0 {
        0
    } else {
        total_docs(segments, n - 1) + segments[n - 1].len()
    }
}

/// The weight of `leaf` in document `doc` of segment number `s` of a
/// snapshot.
pub open spec fn leaf_weight(segments: Seq<Seq<AnalyzedView>>, leaf: LeafView, s: int, doc: int) -> nat {
    weight(
        leaf_tf(segments[s], leaf, doc),
        leaf_df(segments, leaf, segments.len() as int),
        total_docs(segments, segments.len() as int),
    )
}

/// The sum of the weights of the first `n` leaves in a document.
pub open spec fn doc_score(
    segments: Seq<Seq<AnalyzedView>>,
    leaves: Seq<LeafView>,
    n: int,
    s: int,
    doc: int,
) -> nat
    decreases n,
{
    if n <= 0 {
        0
    } else {
        doc_score(segments, leaves, n - 1, s, doc) + leaf_weight(segments, leaves[n - 1], s, doc)
    }
}

/// `hit` stands for a document of segment number `s` of the snapshot that
/// the query matches: it names the document and carries its score, which is
/// positive.
pub open spec fn is_hit_of(
    segments: Seq<Seq<AnalyzedView>>,
    ids: Seq<usize>,
    leaves: Seq<LeafView>,
    s: int,
    hit: Hit,
) -> bool {
    &&& 0 <= s < segments.len()
    &&& ids[s] == hit.segment
    &&& hit.doc < segments[s].len()
    &&& hit.score > 0
    &&& hit.score == doc_score(segments, leaves, leaves.len() as int, s, hit.doc as int)
}

/// The hits of all documents of a snapshot that the query matches.
pub open spec fn candidates(
    segments: Seq<Seq<AnalyzedView>>,
    ids: Seq<usize>,
    leaves: Seq<LeafView>,
) -> Set<Hit> {
    Set::new(|hit: Hit| exists|s: int| is_hit_of(segments, ids, leaves, s, hit))
}

/// The documents of the segments that a snapshot lists.
pub open spec fn snapshot_docs(store: Seq<Segment>, ids: Seq<usize>) -> Seq<Seq<AnalyzedView>> {
    Seq::new(ids.len(), |s: int| store[ids[s] as int]@)
}

/// The snapshot lists segments of the store, each once, in ascending order,
/// and they are well formed.
pub open spec fn snapshot_ok(store: Seq<Segment>, ids: Seq<usize>) -> bool {
    &&& forall|s: int| 0 <= s < ids.len() ==> (#[trigger] ids[s]) < store.len() && store[ids[s] as int].wf()
    &&& forall|s: int, t: int| 0 <= s < t < ids.len() ==> (#[trigger] ids[s]) < (#[trigger] ids[t])
}

proof fn lemma_matching_docs(docs: Seq<AnalyzedView>, leaf: LeafView, n: int)
    requires
        0 <= n,
    ensures
        matching_docs(docs, leaf, n).len() <= n,
        forall|k: int|
            0 <= k < matching_docs(docs, leaf, n).len() ==> 0 <= (#[trigger] matching_docs(
                docs,
                leaf,
                n,
            )[k]) < n && leaf_tf(docs, leaf, matching_docs(docs, leaf, n)[k]) > 0,
        forall|j: int, k: int|
            0 <= j < k < matching_docs(docs, leaf, n).len() ==> (#[trigger] matching_docs(
                docs,
                leaf,
                n,
            )[j]) < (#[trigger] matching_docs(docs, leaf, n)[k]),
        forall|d: int|
            0 <= d < n && #[trigger] leaf_tf(docs, leaf, d) > 0 ==> matching_docs(
                docs,
                leaf,
                n,
            ).contains(d),
    decreases n,
{
    if n > 0 {
        lemma_matching_docs(docs, leaf, n - 1);
        let shorter = matching_docs(docs, leaf, n - 1);
        let list = matching_docs(docs, leaf, n);
        assert forall|d: int| 0 <= d < n && #[trigger] leaf_tf(docs, leaf, d) > 0 implies list.contains(
            d,
        ) by {
            if d < n - 1 {
                let k = choose|k: int| 0 <= k < shorter.len() && shorter[k] == d;
                assert(list[k] == d);
            } else {
                assert(list[list.len() - 1] == d);
            }
        }
    }
}

/// The score of a document is at most `MAX_WEIGHT` for each leaf.
pub proof fn lemma_score_bound(
    segments: Seq<Seq<AnalyzedView>>,
    leaves: Seq<LeafView>,
    n: int,
    s: int,
    doc: int,
)
    requires
        0 <= n,
    ensures
        doc_score(segments, leaves, n, s, doc) <= n * MAX_WEIGHT,
    decreases n,
{
    if n > 0 {
        lemma_score_bound(segments, leaves, n - 1, s, doc);
        lemma_weight_bounds(
            leaf_tf(segments[s], leaves[n - 1], doc),
            leaf_df(segments, leaves[n - 1], segments.len() as int),
            total_docs(segments, segments.len() as int),
        );
    }
}

proof fn lemma_df_counts_segment(segments: Seq<Seq<AnalyzedView>>, leaf: LeafView, n: int, s: int)
    requires
        0 <= s < n,
    ensures
        leaf_df(segments, leaf, n) >= matching_docs(segments[s], leaf, segments[s].len() as int).len(),
    decreases n,
{
    if s < n - 1 {
        lemma_df_counts_segment(segments, leaf, n - 1, s);
    }
}

proof fn lemma_score_is_sum(
    segments: Seq<Seq<AnalyzedView>>,
    leaves: Seq<LeafView>,
    n: int,
    s: int,
    doc: int,
)
    requires
        0 <= n,
    ensures
        forall|l: int|
            0 <= l < n ==> doc_score(segments, leaves, n, s, doc) >= #[trigger] leaf_weight(
                segments,
                leaves[l],
                s,
                doc,
            ),
        doc_score(segments, leaves, n, s, doc) > 0 ==> exists|l: int|
            0 <= l < n && #[trigger] leaf_weight(segments, leaves[l], s, doc) > 0,
    decreases n,
{
    if n > 0 {
        lemma_score_is_sum(segments, leaves, n - 1, s, doc);
    }
}

/// A document of a snapshot has a positive score exactly when it matches
/// one of the leaves of the query. So the hits that a search ranks are those
/// of the matching documents, all of them and no others.
pub proof fn lemma_score_positive_iff_match(
    segments: Seq<Seq<AnalyzedView>>,
    leaves: Seq<LeafView>,
    s: int,
    doc: int,
)
    requires
        0 <= s < segments.len(),
        0 <= doc < segments[s].len(),
    ensures
        doc_score(segments, leaves, leaves.len() as int, s, doc) > 0 <==> exists|l: int|
            0 <= l < leaves.len() && leaf_tf(segments[s], #[trigger] leaves[l], doc) > 0,
{
    let n = leaves.len() as int;
    lemma_score_is_sum(segments, leaves, n, s, doc);
    if exists|l: int| 0 <= l < leaves.len() && leaf_tf(segments[s], #[trigger] leaves[l], doc) > 0 {
        let l = choose|l: int|
            0 <= l < leaves.len() && leaf_tf(segments[s], #[trigger] leaves[l], doc) > 0;
        let leaf = leaves[l];
        lemma_matching_docs(segments[s], leaf, segments[s].len() as int);
        lemma_df_counts_segment(segments, leaf, segments.len() as int, s);
        lemma_weight_bounds(
            leaf_tf(segments[s], leaf, doc),
            leaf_df(segments, leaf, segments.len() as int),
            total_docs(segments, segments.len() as int),
        );
        assert(leaf_weight(segments, leaves[l], s, doc) > 0);
    }
}

/// Lists, for every segment of the snapshot and every leaf, the documents
/// in which the leaf occurs.
fn collect_matches(store: &Vec<Segment>, ids: &Vec<usize>, leaves: &Vec<Leaf>) -> (all: Vec<
    Vec<Vec<Match>>,
>)
    requires
        snapshot_ok(store@, ids@),
    ensures
        all.len() == ids.len(),
        forall|s: int| 0 <= s < all.len() ==> (#[trigger] all[s]).len() == leaves.len(),
        forall|s: int, l: int|
            0 <= s < all.len() && 0 <= l < leaves.len() ==> is_match_list(
                (#[trigger] all[s][l])@,
                store[ids[s] as int]@,
                leaves[l]@,
            ),
{
    let mut all: Vec<Vec<Vec<Match>>> = Vec::new();
    let mut s: usize = 0;
    while s < ids.len()
        invariant
            snapshot_ok(store@, ids@),
            s <= ids.len(),
            all.len() == s,
            forall|t: int| 0 <= t < all.len() ==> (#[trigger] all[t]).len() == leaves.len(),
            forall|t: int, l: int|
                0 <= t < all.len() && 0 <= l < leaves.len() ==> is_match_list(
                    (#[trigger] all[t][l])@,
                    store[ids[t] as int]@,
                    leaves[l]@,
                ),
        decreases ids.len() - s,
    {
        let segment = &store[ids[s]];
        let mut row: Vec<Vec<Match>> = Vec::new();
        let mut l: usize = 0;
        while l < leaves.len()
            invariant
                segment.wf(),
                l <= leaves.len(),
                row.len() == l,
                forall|k: int|
                    0 <= k < row.len() ==> is_match_list(
                        (#[trigger] row[k])@,
                        segment@,
                        leaves[k]@,
                    ),
            decreases leaves.len() - l,
        {
            row.push(leaf_matches(segment, &leaves[l]));
            l = l + 1;
        }
        all.push(row);
        s = s + 1;
    }
    all
}

/// Counts the documents of the snapshot that hold leaf number `l`.
fn document_frequency(
    all: &Vec<Vec<Vec<Match>>>,
    l: usize,
    Ghost(segments): Ghost<Seq<Seq<AnalyzedView>>>,
    Ghost(leaf): Ghost<LeafView>,
) -> (df: u128)
    requires
        all.len() == segments.len(),
        forall|s: int| 0 <= s < all.len() ==> l < (#[trigger] all[s]).len(),
        forall|s: int|
            0 <= s < all.len() ==> is_match_list((#[trigger] all[s])[l as int]@, segments[s], leaf),
    ensures
        df == leaf_df(segments, leaf, segments.len() as int),
{
    let mut df: u128 = 0;
    let mut s: usize = 0;
    while s < all.len()
        invariant
            s <= all.len(),
            all.len() == segments.len(),
            forall|t: int| 0 <= t < all.len() ==> l < (#[trigger] all[t]).len(),
            forall|t: int|
                0 <= t < all.len() ==> is_match_list(
                    (#[trigger] all[t])[l as int]@,
                    segments[t],
                    leaf,
                ),
            df == leaf_df(segments, leaf, s as int),
            df <= s * usize::MAX,
        decreases all.len() - s,
    {
        let count = all[s][l].len();
        df = df + count as u128;
        s = s + 1;
    }
    df
}

/// Counts the documents of the snapshot.
fn count_documents(store: &Vec<Segment>, ids: &Vec<usize>) -> (total: u128)
    requires
        snapshot_ok(store@, ids@),
    ensures
        total == total_docs(snapshot_docs(store@, ids@), ids.len() as int),
{
    let ghost segments = snapshot_docs(store@, ids@);
    let mut total: u128 = 0;
    let mut s: usize = 0;
    while s < ids.len()
        invariant
            snapshot_ok(store@, ids@),
            segments == snapshot_docs(store@, ids@),
            s <= ids.len(),
            total == total_docs(segments, s as int),
            total <= s * usize::MAX,
        decreases ids.len() - s,
    {
        let count = store[ids[s]].doc_count();
        total = total + count as u128;
        s = s + 1;
    }
    total
}

/// Document `doc` is among the first `n` matches of the list.
pub open spec fn listed(matches: Seq<Match>, n: int, doc: int) -> bool {
    exists|k: int| 0 <= k < n && k < matches.len() && (#[trigger] matches[k]).doc == doc
}

fn zeros(n: usize) -> (v: Vec<u128>)
    ensures
        v.len() == n,
        forall|i: int| 0 <= i < n ==> v[i] == 0,
{
    let mut v: Vec<u128> = Vec::new();
    while v.len() < n
        invariant
            v.len() <= n,
            forall|i: int| 0 <= i < v.len() ==> v[i] == 0,
        decreases n - v.len(),
    {
        v.push(0);
    }
    v
}

/// Computes the score of every document of segment number `s` of the
/// snapshot from the match lists of the leaves.
fn score_segment(
    row: &Vec<Vec<Match>>,
    dfs: &Vec<u128>,
    total: u128,
    doc_count: usize,
    Ghost(segments): Ghost<Seq<Seq<AnalyzedView>>>,
    Ghost(leaves): Ghost<Seq<LeafView>>,
    Ghost(s): Ghost<int>,
) -> (scores: Vec<u128>)
    requires
        0 <= s < segments.len(),
        doc_count == segments[s].len(),
        row.len() == leaves.len(),
        dfs.len() == leaves.len(),
        forall|l: int| 0 <= l < row.len() ==> is_match_list((#[trigger] row[l])@, segments[s], leaves[l]),
        forall|l: int|
            0 <= l < dfs.len() ==> (#[trigger] dfs[l]) == leaf_df(
                segments,
                leaves[l],
                segments.len() as int,
            ),
        total == total_docs(segments, segments.len() as int),
    ensures
        scores.len() == doc_count,
        forall|d: int|
            0 <= d < doc_count ==> (#[trigger] scores[d]) == doc_score(
                segments,
                leaves,
                leaves.len() as int,
                s,
                d,
            ),
{
    let mut scores = zeros(doc_count);
    let mut l: usize = 0;
    while l < row.len()
        invariant
            0 <= s < segments.len(),
            doc_count == segments[s].len(),
            row.len() == leaves.len(),
            dfs.len() == leaves.len(),
            forall|k: int|
                0 <= k < row.len() ==> is_match_list((#[trigger] row[k])@, segments[s], leaves[k]),
            forall|k: int|
                0 <= k < dfs.len() ==> (#[trigger] dfs[k]) == leaf_df(
                    segments,
                    leaves[k],
                    segments.len() as int,
                ),
            total == total_docs(segments, segments.len() as int),
            l <= row.len(),
            scores.len() == doc_count,
            forall|d: int|
                0 <= d < doc_count ==> (#[trigger] scores[d]) == doc_score(
                    segments,
                    leaves,
                    l as int,
                    s,
                    d,
                ),
        decreases row.len() - l,
    {
        let list = &row[l];
        let df = dfs[l];
        let ghost leaf = leaves[l as int];
        let ghost docs = segments[s];
        proof {
            lemma_matching_docs(docs, leaf, doc_count as int);
        }
        let mut j: usize = 0;
        while j < list.len()
            invariant
                0 <= s < segments.len(),
                docs == segments[s],
                doc_count == docs.len(),
                l < leaves.len(),
                l < row.len(),
                leaf == leaves[l as int],
                is_match_list(list@, docs, leaf),
                df == leaf_df(segments, leaf, segments.len() as int),
                total == total_docs(segments, segments.len() as int),
                j <= list.len(),
                scores.len() == doc_count,
                forall|d: int|
                    0 <= d < doc_count ==> (#[trigger] scores[d]) == doc_score(
                        segments,
                        leaves,
                        l as int,
                        s,
                        d,
                    ) + if listed(list@, j as int, d) {
                        leaf_weight(segments, leaf, s, d)
                    } else {
                        0
                    },
            decreases list.len() - j,
        {
            let found = list[j];
            proof {
                lemma_matching_docs(docs, leaf, doc_count as int);
                assert(match_docs(list@)[j as int] == found.doc);
                assert(!listed(list@, j as int, found.doc as int)) by {
                    if listed(list@, j as int, found.doc as int) {
                        let k = choose|k: int|
                            0 <= k < j && k < list@.len() && (#[trigger] list@[k]).doc == found.doc;
                        assert(match_docs(list@)[k] == found.doc);
                    }
                }
                lemma_score_bound(segments, leaves, l as int, s, found.doc as int);
            }
            let w = weight_of(found.tf, df, total);
            scores[found.doc] = scores[found.doc] + w;
            proof {
                assert forall|d: int| 0 <= d < doc_count implies (#[trigger] scores[d]) == doc_score(
                    segments,
                    leaves,
                    l as int,
                    s,
                    d,
                ) + if listed(list@, j + 1, d) {
                    leaf_weight(segments, leaf, s, d)
                } else {
                    0
                } by {}
            }
            j = j + 1;
        }
        l = l + 1;
    }
    scores
}

/// The hits of the matching documents that come before document `doc` of
/// segment number `s`, in the order of the snapshot.
pub open spec fn visited(
    segments: Seq<Seq<AnalyzedView>>,
    ids: Seq<usize>,
    leaves: Seq<LeafView>,
    s: int,
    doc: int,
) -> Set<Hit> {
    Set::new(
        |hit: Hit|
            exists|t: int|
                is_hit_of(segments, ids, leaves, t, hit) && (t < s || (t == s && hit.doc < doc)),
    )
}

/// Evaluates the leaves of a query on a snapshot and returns the best
/// `limit` hits in rank order.
pub fn evaluate(store: &Vec<Segment>, ids: &Vec<usize>, leaves: &Vec<Leaf>, limit: usize) -> (hits:
    Vec<Hit>)
    requires
        snapshot_ok(store@, ids@),
    ensures
        is_top_k(
            hits@,
            limit as int,
            candidates(snapshot_docs(store@, ids@), ids@, leaf_views(leaves@)),
        ),
{
    let ghost segments = snapshot_docs(store@, ids@);
    let ghost views = leaf_views(leaves@);
    let all = collect_matches(store, ids, leaves);
    let total = count_documents(store, ids);
    let mut dfs: Vec<u128> = Vec::new();
    let mut l: usize = 0;
    while l < leaves.len()
        invariant
            segments == snapshot_docs(store@, ids@),
            views == leaf_views(leaves@),
            all.len() == ids.len(),
            forall|s: int| 0 <= s < all.len() ==> (#[trigger] all[s]).len() == leaves.len(),
            forall|s: int, k: int|
                0 <= s < all.len() && 0 <= k < leaves.len() ==> is_match_list(
                    (#[trigger] all[s][k])@,
                    store[ids[s] as int]@,
                    leaves[k]@,
                ),
            l <= leaves.len(),
            dfs.len() == l,
            forall|k: int|
                0 <= k < l ==> (#[trigger] dfs[k]) == leaf_df(segments, views[k], segments.len() as int),
        decreases leaves.len() - l,
    {
        let df = document_frequency(&all, l, Ghost(segments), Ghost(views[l as int]));
        dfs.push(df);
        l = l + 1;
    }
    let mut collector = Collector::new(limit);
    let mut s: usize = 0;
    while s < ids.len()
        invariant
            snapshot_ok(store@, ids@),
            segments == snapshot_docs(store@, ids@),
            views == leaf_views(leaves@),
            all.len() == ids.len(),
            forall|t: int| 0 <= t < all.len() ==> (#[trigger] all[t]).len() == leaves.len(),
            forall|t: int, k: int|
                0 <= t < all.len() && 0 <= k < leaves.len() ==> is_match_list(
                    (#[trigger] all[t][k])@,
                    store[ids[t] as int]@,
                    leaves[k]@,
                ),
            dfs.len() == leaves.len(),
            forall|k: int|
                0 <= k < dfs.len() ==> (#[trigger] dfs[k]) == leaf_df(
                    segments,
                    views[k],
                    segments.len() as int,
                ),
            total == total_docs(segments, segments.len() as int),
            s <= ids.len(),
            collector.wf(),
            collector.limit() == limit,
            collector.seen() == visited(segments, ids@, views, s as int, 0),
        decreases ids.len() - s,
    {
        let id = ids[s];
        let doc_count = store[id].doc_count();
        let scores = score_segment(
            &all[s],
            &dfs,
            total,
            doc_count,
            Ghost(segments),
            Ghost(views),
            Ghost(s as int),
        );
        let mut d: usize = 0;
        while d < doc_count
            invariant
                snapshot_ok(store@, ids@),
                segments == snapshot_docs(store@, ids@),
                s < ids.len(),
                id == ids[s as int],
                doc_count == segments[s as int].len(),
                d <= doc_count,
                scores.len() == doc_count,
                forall|e: int|
                    0 <= e < doc_count ==> (#[trigger] scores[e]) == doc_score(
                        segments,
                        views,
                        views.len() as int,
                        s as int,
                        e,
                    ),
                collector.wf(),
                collector.limit() == limit,
                collector.seen() == visited(segments, ids@, views, s as int, d as int),
            decreases doc_count - d,
        {
            let score = scores[d];
            if score > 0 {
                let hit = Hit { score, segment: id, doc: d };
                collector.offer(hit);
                proof {
                    assert(is_hit_of(segments, ids@, views, s as int, hit));
                }
            }
            d = d + 1;
        }
        s = s + 1;
    }
    proof {
        let all_seen = visited(segments, ids@, views, ids.len() as int, 0);
        let wanted = candidates(segments, ids@, views);
        assert forall|h: Hit| all_seen.contains(h) <==> wanted.contains(h) by {
            if wanted.contains(h) {
                let t = choose|t: int| is_hit_of(segments, ids@, views, t, h);
                assert(t < ids.len());
            }
        }
    }
    collector.into_hits()
}

} // verus!
