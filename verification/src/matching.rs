//! Matching a query against a segment: which documents a term or phrase
//! occurs in, and how often.

use crate::analysis::AnalyzedView;
use crate::postings::{Posting, PostingView, Slot, posting_views, postings_ordered};
use crate::segment::{Segment, segment_postings};
use vstd::prelude::*;

verus! {

/// A term or phrase to look for in one field. One term is a term query,
/// several are a phrase whose terms have to stand at consecutive positions
/// of one entry.
#[derive(Debug, PartialEq, Eq)]
pub struct Leaf {
    pub field: usize,
    pub terms: Vec<Vec<u8>>,
}

/// The mathematical value of a [`Leaf`].
pub struct LeafView {
    pub field: int,
    pub terms: Seq<Seq<u8>>,
}

impl View for Leaf {
    type V = LeafView;

    open spec fn view(&self) -> LeafView {
        LeafView { field: self.field as int, terms: crate::query::byte_views(self.terms@) }
    }
}

/// The values of a list of leaves.
pub open spec fn leaf_views(leaves: Seq<Leaf>) -> Seq<LeafView> {
    Seq::new(leaves.len(), |i: int| leaves[i]@)
}

/// The places listed for document `doc` in a postings list.
pub open spec fn slots_in(postings: Seq<PostingView>, doc: int) -> Seq<Slot> {
    if exists|k: int| 0 <= k < postings.len() && (#[trigger] postings[k]).doc == doc {
        let k = choose|k: int| 0 <= k < postings.len() && (#[trigger] postings[k]).doc == doc;
        postings[k].slots
    } else {
        seq![]
    }
}

/// The list holds the place `position` of entry `entry`.
pub open spec fn has_slot(slots: Seq<Slot>, entry: int, position: int) -> bool {
    exists|k: int|
        0 <= k < slots.len() && (#[trigger] slots[k]).entry == entry && slots[k].position
            == position
}

/// The phrase of `leaf` stands in document `doc` with its first term at
/// `start`: each further term stands in the same entry, as many positions
/// behind `start` as it is behind the first term.
pub open spec fn phrase_starts_at(docs: Seq<AnalyzedView>, leaf: LeafView, doc: int, start: Slot) -> bool {
    forall|i: int|
        1 <= i < leaf.terms.len() ==> has_slot(
            slots_in(segment_postings(docs, leaf.field, #[trigger] leaf.terms[i]), doc),
            start.entry as int,
            start.position + i,
        )
}

/// How many of the first `n` of `starts` begin the phrase.
pub open spec fn count_starts(
    docs: Seq<AnalyzedView>,
    leaf: LeafView,
    doc: int,
    starts: Seq<Slot>,
    n: int,
) -> nat
    decreases n,
{
    if n <= 0 {
        0
    } else {
        count_starts(docs, leaf, doc, starts, n - 1) + if phrase_starts_at(
            docs,
            leaf,
            doc,
            starts[n - 1],
        ) {
            1nat
        } else {
            0nat
        }
    }
}

/// The places at which the first term of `leaf` stands in document `doc`.
pub open spec fn first_term_slots(docs: Seq<AnalyzedView>, leaf: LeafView, doc: int) -> Seq<Slot> {
    slots_in(segment_postings(docs, leaf.field, leaf.terms[0]), doc)
}

/// The frequency of `leaf` in document `doc`: the number of places at which
/// its term stands, or its phrase starts.
pub open spec fn leaf_tf(docs: Seq<AnalyzedView>, leaf: LeafView, doc: int) -> nat {
    if leaf.terms.len() == 0 {
        0
    } else {
        let starts = first_term_slots(docs, leaf, doc);
        count_starts(docs, leaf, doc, starts, starts.len() as int)
    }
}

/// The documents below `n` in which `leaf` occurs, ascending.
pub open spec fn matching_docs(docs: Seq<AnalyzedView>, leaf: LeafView, n: int) -> Seq<int>
    decreases n,
{
    if n <= 0 {
        seq![]
    } else if leaf_tf(docs, leaf, n - 1) > 0 {
        matching_docs(docs, leaf, n - 1).push(n - 1)
    } else {
        matching_docs(docs, leaf, n - 1)
    }
}

/// A document in which a leaf occurs, with the leaf's frequency in it.
#[derive(Clone, Copy, PartialEq, Eq, Debug, Structural)]
pub struct Match {
    pub doc: usize,
    pub tf: usize,
}

/// The document numbers of a list of matches.
pub open spec fn match_docs(matches: Seq<Match>) -> Seq<int> {
    Seq::new(matches.len(), |k: int| matches[k].doc as int)
}

/// `matches` lists the documents of the segment in which `leaf` occurs,
/// ascending, each with the leaf's frequency.
pub open spec fn is_match_list(matches: Seq<Match>, docs: Seq<AnalyzedView>, leaf: LeafView) -> bool {
    &&& match_docs(matches) == matching_docs(docs, leaf, docs.len() as int)
    &&& forall|k: int|
        0 <= k < matches.len() ==> (#[trigger] matches[k]).tf == leaf_tf(
            docs,
            leaf,
            matches[k].doc as int,
        )
}

/// Finds the places listed for a document in a postings list.
pub fn doc_slots(postings: &Vec<Posting>, doc: usize) -> (found: Option<&Vec<Slot>>)
    requires
        exists|bound: int| postings_ordered(posting_views(postings@), bound),
    ensures
        match found {
            Some(slots) => slots@ == slots_in(posting_views(postings@), doc as int) && slots.len()
                > 0,
            None => slots_in(posting_views(postings@), doc as int) == Seq::<Slot>::empty(),
        },
{
    let ghost views = posting_views(postings@);
    let ghost bound = choose|bound: int| postings_ordered(posting_views(postings@), bound);
    let mut low: usize = 0;
    let mut high: usize = postings.len();
    while low < high
        invariant
            low <= high <= postings.len(),
            views == posting_views(postings@),
            postings_ordered(views, bound),
            forall|k: int| 0 <= k < low ==> (#[trigger] views[k]).doc < doc,
            forall|k: int| high <= k < views.len() ==> (#[trigger] views[k]).doc > doc,
        decreases high - low,
    {
        let mid = low + (high - low) / 2;
        let at = postings[mid].doc;
        assert(views[mid as int].doc == at);
        if at < doc {
            low = mid + 1;
        } else if at > doc {
            high = mid;
        } else {
            return Some(&postings[mid].slots);
        }
    }
    None
}

/// Tells whether the list holds the place `offset` positions behind
/// `position` in entry `entry`.
pub fn slot_listed(slots: &Vec<Slot>, entry: usize, position: usize, offset: usize) -> (listed: bool)
    ensures
        listed == has_slot(slots@, entry as int, position + offset),
{
    let mut k: usize = 0;
    while k < slots.len()
        invariant
            k <= slots.len(),
            forall|j: int|
                0 <= j < k ==> !((#[trigger] slots[j]).entry == entry && slots[j].position
                    == position + offset),
        decreases slots.len() - k,
    {
        let slot = slots[k];
        if slot.entry == entry && slot.position >= offset && slot.position - offset == position {
            return true;
        }
        k = k + 1;
    }
    false
}

/// Tells whether the phrase of `leaf` stands in document `doc` with its
/// first term at `start`.
pub fn phrase_starts_here(segment: &Segment, leaf: &Leaf, doc: usize, start: Slot) -> (starts: bool)
    requires
        segment.wf(),
    ensures
        starts == phrase_starts_at(segment@, leaf@, doc as int, start),
{
    let mut i: usize = 1;
    while i < leaf.terms.len()
        invariant
            segment.wf(),
            1 <= i,
            forall|j: int|
                1 <= j < i && j < leaf@.terms.len() ==> has_slot(
                    slots_in(segment_postings(segment@, leaf@.field, #[trigger] leaf@.terms[j]), doc as int),
                    start.entry as int,
                    start.position + j,
                ),
        decreases leaf.terms.len() - i,
    {
        assert(leaf@.terms[i as int] == leaf.terms[i as int]@);
        let listed = match segment.find_postings(leaf.field, leaf.terms[i].as_slice()) {
            None => false,
            Some(postings) => match doc_slots(postings, doc) {
                None => false,
                Some(slots) => slot_listed(slots, start.entry, start.position, i),
            },
        };
        if !listed {
            return false;
        }
        i = i + 1;
    }
    true
}

/// Counts the places among `starts` at which the phrase of `leaf` starts in
/// document `doc`.
pub fn count_phrase(segment: &Segment, leaf: &Leaf, doc: usize, starts: &Vec<Slot>) -> (count: usize)
    requires
        segment.wf(),
    ensures
        count == count_starts(segment@, leaf@, doc as int, starts@, starts.len() as int),
{
    let mut count: usize = 0;
    let mut k: usize = 0;
    while k < starts.len()
        invariant
            segment.wf(),
            k <= starts.len(),
            count <= k,
            count == count_starts(segment@, leaf@, doc as int, starts@, k as int),
        decreases starts.len() - k,
    {
        if phrase_starts_here(segment, leaf, doc, starts[k]) {
            count = count + 1;
        }
        k = k + 1;
    }
    count
}

proof fn lemma_no_matches_between(docs: Seq<AnalyzedView>, leaf: LeafView, from: int, to: int)
    requires
        0 <= from <= to,
        forall|d: int| from <= d < to ==> #[trigger] leaf_tf(docs, leaf, d) == 0,
    ensures
        matching_docs(docs, leaf, to) == matching_docs(docs, leaf, from),
    decreases to - from,
{
    if from < to {
        lemma_no_matches_between(docs, leaf, from, to - 1);
    }
}

/// Lists the documents of a segment in which `leaf` occurs.
pub fn leaf_matches(segment: &Segment, leaf: &Leaf) -> (matches: Vec<Match>)
    requires
        segment.wf(),
    ensures
        is_match_list(matches@, segment@, leaf@),
{
    let ghost docs = segment@;
    let ghost total = docs.len() as int;
    let mut matches: Vec<Match> = Vec::new();
    if leaf.terms.len() == 0 {
        proof {
            lemma_no_matches_between(docs, leaf@, 0, total);
            assert(match_docs(matches@) =~= matching_docs(docs, leaf@, total));
        }
        return matches;
    }
    let postings = match segment.find_postings(leaf.field, leaf.terms[0].as_slice()) {
        None => {
            proof {
                lemma_no_matches_between(docs, leaf@, 0, total);
                assert(match_docs(matches@) =~= matching_docs(docs, leaf@, total));
            }
            return matches;
        },
        Some(postings) => postings,
    };
    let ghost views = posting_views(postings@);
    let ghost mut done: int = 0;
    let mut j: usize = 0;
    while j < postings.len()
        invariant
            segment.wf(),
            docs == segment@,
            total == docs.len(),
            leaf@.terms.len() > 0,
            j <= postings.len(),
            views == posting_views(postings@),
            views == segment_postings(docs, leaf@.field, leaf@.terms[0]),
            postings_ordered(views, total),
            0 <= done <= total,
            j > 0 ==> done == views[j - 1].doc + 1,
            j == 0 ==> done == 0,
            match_docs(matches@) == matching_docs(docs, leaf@, done),
            forall|k: int|
                0 <= k < matches.len() ==> (#[trigger] matches[k]).tf == leaf_tf(
                    docs,
                    leaf@,
                    matches[k].doc as int,
                ),
        decreases postings.len() - j,
    {
        let posting = &postings[j];
        let doc = posting.doc;
        assert(views[j as int] == posting@);
        proof {
            lemma_no_matches_between(docs, leaf@, done, doc as int);
        }
        let tf = count_phrase(segment, leaf, doc, &posting.slots);
        if tf > 0 {
            matches.push(Match { doc, tf });
        }
        proof {
            done = doc + 1;
        }
        j = j + 1;
    }
    proof {
        lemma_no_matches_between(docs, leaf@, done, total);
    }
    matches
}

} // verus!
