//! Segments: the unit in which documents are indexed and committed. A
//! segment holds a sorted term dictionary with postings and the stored
//! values of its documents, which are numbered densely from zero.

use crate::analysis::{AnalyzedDoc, AnalyzedView, docs_fit, occurrence_views, stored_fit};
use crate::document::{StoredValue, stored_views};
use crate::postings::{
    Occurrence, Posting, PostingView, TermEntry, dictionary_wf, locate, lookup, lemma_lookup_at,
    posting_views, postings_of, postings_ordered, record,
};
use vstd::prelude::*;

verus! {

/// The occurrences of document number `id`.
pub open spec fn doc_occurrences(doc: AnalyzedView, id: int) -> Seq<Occurrence> {
    Seq::new(
        doc.occurrences.len(),
        |k: int|
            Occurrence {
                doc: id,
                field: doc.occurrences[k].field,
                term: doc.occurrences[k].term,
                slot: doc.occurrences[k].slot,
            },
    )
}

/// All term occurrences of a list of documents, document by document.
pub open spec fn all_occurrences(docs: Seq<AnalyzedView>) -> Seq<Occurrence>
    decreases docs.len(),
{
    if docs.len() == 0 {
        seq![]
    } else {
        all_occurrences(docs.drop_last()) + doc_occurrences(docs.last(), docs.len() - 1)
    }
}

/// A batch of indexed documents.
pub struct Segment {
    terms: Vec<TermEntry>,
    stored: Vec<Vec<StoredValue>>,
    docs: Ghost<Seq<AnalyzedView>>,
}

impl View for Segment {
    type V = Seq<AnalyzedView>;

    /// The analyzed documents of the segment, by document number.
    closed spec fn view(&self) -> Seq<AnalyzedView> {
        self.docs@
    }
}

/// The postings list of a term in a segment with the documents `docs`: the
/// documents in which the term occurs, ascending, each with the places of
/// the term.
pub open spec fn segment_postings(docs: Seq<AnalyzedView>, field: int, term: Seq<u8>) -> Seq<
    PostingView,
> {
    postings_of(all_occurrences(docs), field, term)
}

impl Segment {
    /// The dictionary is sorted and lists exactly the occurrences of the
    /// segment's documents; the stored values are those of the documents.
    pub closed spec fn wf(&self) -> bool {
        &&& dictionary_wf(self.terms@, self.stored.len() as int)
        &&& self.stored.len() == self.docs@.len()
        &&& forall|d: int|
            0 <= d < self.stored.len() ==> stored_views((#[trigger] self.stored[d])@)
                == self.docs@[d].stored
        &&& forall|f: int, t: Seq<u8>| #[trigger]
            lookup(self.terms@, f, t) == segment_postings(self.docs@, f, t)
    }

    /// A segment without documents.
    pub fn new() -> (segment: Self)
        ensures
            segment.wf(),
            segment@ == Seq::<AnalyzedView>::empty(),
    {
        Segment { terms: Vec::new(), stored: Vec::new(), docs: Ghost(Seq::empty()) }
    }

    /// The number of documents.
    pub fn doc_count(&self) -> (n: usize)
        requires
            self.wf(),
        ensures
            n == self@.len(),
    {
        self.stored.len()
    }

    /// Appends a document; it gets the next document number.
    pub fn add(&mut self, doc: AnalyzedDoc)
        requires
            old(self).wf(),
        ensures
            final(self).wf(),
            final(self)@ == old(self)@.push(doc@),
    {
        let id = self.stored.len();
        let ghost before = self.docs@;
        let ghost after = before.push(doc@);
        let ghost added = doc_occurrences(doc@, id as int);
        let ghost mut seen: Seq<Occurrence> = all_occurrences(before);
        proof {
            assert(after.drop_last() =~= before);
        }
        let AnalyzedDoc { stored, occurrences } = doc;
        let mut k: usize = 0;
        while k < occurrences.len()
            invariant
                k <= occurrences.len(),
                id == self.stored.len(),
                self.stored == old(self).stored,
                self.docs == old(self).docs,
                occurrence_views(occurrences@) == doc@.occurrences,
                added == doc_occurrences(doc@, id as int),
                seen == all_occurrences(before) + added.take(k as int),
                dictionary_wf(self.terms@, id + 1),
                forall|f: int, t: Seq<u8>| #[trigger]
                    lookup(self.terms@, f, t) == postings_of(seen, f, t),
            decreases occurrences.len() - k,
        {
            let occurrence = &occurrences[k];
            let ghost next = added[k as int];
            let ghost grown = seen.push(next);
            proof {
                assert(grown.drop_last() =~= seen);
            }
            record(
                &mut self.terms,
                occurrence.field,
                occurrence.term.as_slice(),
                id,
                occurrence.slot,
            );
            proof {
                seen = grown;
            }
            k = k + 1;
        }
        proof {
            assert(added.take(k as int) =~= added);
        }
        self.stored.push(stored);
        self.docs = Ghost(after);
    }

    /// The term dictionary: the terms of the segment in ascending order,
    /// each with its postings list.
    pub fn dictionary(&self) -> (entries: &Vec<TermEntry>)
        requires
            self.wf(),
        ensures
            dictionary_wf(entries@, self@.len() as int),
            forall|f: int, t: Seq<u8>| #[trigger]
                lookup(entries@, f, t) == segment_postings(self@, f, t),
    {
        &self.terms
    }

    /// The postings list of a term, if the dictionary holds it.
    pub fn find_postings(&self, field: usize, term: &[u8]) -> (found: Option<&Vec<Posting>>)
        requires
            self.wf(),
        ensures
            match found {
                Some(postings) => postings.len() > 0 && posting_views(postings@)
                    == segment_postings(self@, field as int, term@),
                None => segment_postings(self@, field as int, term@)
                    == Seq::<PostingView>::empty(),
            },
            postings_ordered(segment_postings(self@, field as int, term@), self@.len() as int),
    {
        let (at, found) = locate(&self.terms, field, term);
        if found {
            proof {
                lemma_lookup_at(self.terms@, at as int);
            }
            Some(&self.terms[at].postings)
        } else {
            proof {
                lemma_key_gap(self.terms@, at as int, field as int, term@);
            }
            None
        }
    }

    /// The stored values of document number `doc`.
    pub fn stored_fields(&self, doc: usize) -> (stored: &Vec<StoredValue>)
        requires
            self.wf(),
            doc < self@.len(),
        ensures
            stored_views(stored@) == self@[doc as int].stored,
    {
        &self.stored[doc]
    }

    /// Tells whether every stored value belongs to one of the first
    /// `fields` fields.
    pub fn fields_below(&self, fields: usize) -> (fit: bool)
        requires
            self.wf(),
        ensures
            fit == docs_fit(self@, fields as int),
    {
        let mut d: usize = 0;
        while d < self.stored.len()
            invariant
                self.wf(),
                d <= self.stored.len(),
                forall|e: int| 0 <= e < d ==> stored_fit(#[trigger] self@[e], fields as int),
            decreases self.stored.len() - d,
        {
            let values = &self.stored[d];
            let ghost views = self@[d as int].stored;
            let mut k: usize = 0;
            while k < values.len()
                invariant
                    k <= values.len(),
                    d < self@.len(),
                    views == self@[d as int].stored,
                    stored_views(values@) == views,
                    forall|j: int| 0 <= j < k ==> 0 <= (#[trigger] views[j]).field < fields,
                decreases values.len() - k,
            {
                assert(views[k as int] == values[k as int]@);
                if values[k].field >= fields {
                    return false;
                }
                k = k + 1;
            }
            d = d + 1;
        }
        true
    }

    /// Every postings list of a well-formed segment is in order.
    pub proof fn lemma_postings_ordered(&self, field: int, term: Seq<u8>)
        requires
            self.wf(),
        ensures
            postings_ordered(segment_postings(self@, field, term), self@.len() as int),
    {
        let entries = self.terms@;
        assert(lookup(entries, field, term) == segment_postings(self@, field, term));
    }
}

/// A key that lies strictly between two neighbours of a sorted dictionary
/// is not in it.
proof fn lemma_key_gap(entries: Seq<TermEntry>, at: int, field: int, term: Seq<u8>)
    requires
        0 <= at <= entries.len(),
        forall|k: int|
            0 <= k < at ==> crate::postings::key_before(
                (#[trigger] entries[k]).field as int,
                entries[k].term@,
                field,
                term,
            ),
        forall|k: int|
            at <= k < entries.len() ==> crate::postings::key_before(
                field,
                term,
                (#[trigger] entries[k]).field as int,
                entries[k].term@,
            ),
    ensures
        lookup(entries, field, term) == Seq::<PostingView>::empty(),
{
    crate::postings::lemma_key_before_irreflexive(field, term);
}

} // verus!
