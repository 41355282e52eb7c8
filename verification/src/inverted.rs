//! What the postings of a segment say about its documents: a term is listed
//! at a place of a document exactly when the document holds it there.

use crate::analysis::{
    AnalyzedView, TermOccurrenceView, analyzed, document_error, document_fits,
    lemma_occurrences_are_tokens, token_stands,
};
use crate::document::EntryView;
use crate::schema::FieldView;
use crate::tokenizer::Analyzer;
use crate::matching::{
    LeafView, count_starts, first_term_slots, has_slot, leaf_tf, phrase_starts_at, slots_in,
};
use crate::postings::{Occurrence, PostingView, Slot, add_slot, postings_of};
use crate::segment::{Segment, all_occurrences, doc_occurrences, segment_postings};
use vstd::prelude::*;

verus! {

/// Occurrence `k` of the document is the term `term` of field `field` at
/// position `position` of entry `entry`.
pub open spec fn is_occurrence(
    occurrence: TermOccurrenceView,
    field: int,
    term: Seq<u8>,
    entry: int,
    position: int,
) -> bool {
    &&& occurrence.field == field
    &&& occurrence.term == term
    &&& occurrence.slot.entry == entry
    &&& occurrence.slot.position == position
}

/// Document `doc` holds the term `term` of field `field` at position
/// `position` of its entry number `entry`.
pub open spec fn stands_at(
    docs: Seq<AnalyzedView>,
    doc: int,
    field: int,
    term: Seq<u8>,
    entry: int,
    position: int,
) -> bool {
    &&& 0 <= doc < docs.len()
    &&& exists|k: int|
        0 <= k < docs[doc].occurrences.len() && is_occurrence(
            #[trigger] docs[doc].occurrences[k],
            field,
            term,
            entry,
            position,
        )
}

/// The terms of the phrase stand in document `doc` side by side, from
/// position `position` of entry `entry` on.
pub open spec fn phrase_stands_from(
    docs: Seq<AnalyzedView>,
    doc: int,
    leaf: LeafView,
    entry: int,
    position: int,
) -> bool {
    forall|i: int|
        0 <= i < leaf.terms.len() ==> stands_at(
            docs,
            doc,
            leaf.field,
            #[trigger] leaf.terms[i],
            entry,
            position + i,
        )
}

/// The terms of the phrase stand somewhere in document `doc` side by side
/// in one entry.
pub open spec fn phrase_stands(docs: Seq<AnalyzedView>, doc: int, leaf: LeafView) -> bool {
    exists|entry: int, position: int| phrase_stands_from(docs, doc, leaf, entry, position)
}

/// The postings list holds `slot` for document `doc`.
pub open spec fn lists(postings: Seq<PostingView>, doc: int, slot: Slot) -> bool {
    exists|j: int|
        0 <= j < postings.len() && (#[trigger] postings[j]).doc == doc && postings[j].slots.contains(
            slot,
        )
}

proof fn lemma_occurrence_listed(docs: Seq<AnalyzedView>, doc: int, k: int) -> (at: int)
    requires
        0 <= doc < docs.len(),
        0 <= k < docs[doc].occurrences.len(),
    ensures
        0 <= at < all_occurrences(docs).len(),
        all_occurrences(docs)[at] == doc_occurrences(docs[doc], doc)[k],
    decreases docs.len(),
{
    let earlier = all_occurrences(docs.drop_last());
    if doc == docs.len() - 1 {
        earlier.len() + k
    } else {
        lemma_occurrence_listed(docs.drop_last(), doc, k)
    }
}

proof fn lemma_listed_occurrence(docs: Seq<AnalyzedView>, at: int) -> (place: (int, int))
    requires
        0 <= at < all_occurrences(docs).len(),
    ensures
        0 <= place.0 < docs.len(),
        0 <= place.1 < docs[place.0].occurrences.len(),
        all_occurrences(docs)[at] == doc_occurrences(docs[place.0], place.0)[place.1],
    decreases docs.len(),
{
    let earlier = all_occurrences(docs.drop_last());
    if at < earlier.len() {
        lemma_listed_occurrence(docs.drop_last(), at)
    } else {
        (docs.len() - 1, at - earlier.len())
    }
}

proof fn lemma_add_slot_keeps(postings: Seq<PostingView>, doc: int, slot: Slot, other: int, kept: Slot)
    requires
        lists(postings, other, kept),
    ensures
        lists(add_slot(postings, doc, slot), other, kept),
{
    let j = choose|j: int|
        0 <= j < postings.len() && (#[trigger] postings[j]).doc == other && postings[j].slots.contains(
            kept,
        );
    let after = add_slot(postings, doc, slot);
    let i = choose|i: int| 0 <= i < postings[j].slots.len() && postings[j].slots[i] == kept;
    if postings.len() > 0 && postings.last().doc == doc && j == postings.len() - 1 {
        assert(after[j].slots[i] == kept);
    } else {
        assert(after[j] == postings[j]);
    }
}

proof fn lemma_add_slot_lists(postings: Seq<PostingView>, doc: int, slot: Slot)
    ensures
        lists(add_slot(postings, doc, slot), doc, slot),
{
    let after = add_slot(postings, doc, slot);
    let last = after.len() - 1;
    assert(after[last].slots[after[last].slots.len() - 1] == slot);
}

proof fn lemma_occurrence_is_listed(occurrences: Seq<Occurrence>, at: int)
    requires
        0 <= at < occurrences.len(),
    ensures
        lists(
            postings_of(occurrences, occurrences[at].field, occurrences[at].term),
            occurrences[at].doc,
            occurrences[at].slot,
        ),
    decreases occurrences.len(),
{
    let wanted = occurrences[at];
    let earlier = postings_of(occurrences.drop_last(), wanted.field, wanted.term);
    let last = occurrences.last();
    if at == occurrences.len() - 1 {
        lemma_add_slot_lists(earlier, last.doc, last.slot);
    } else {
        lemma_occurrence_is_listed(occurrences.drop_last(), at);
        if last.field == wanted.field && last.term == wanted.term {
            lemma_add_slot_keeps(earlier, last.doc, last.slot, wanted.doc, wanted.slot);
        }
    }
}

proof fn lemma_listed_is_occurrence(
    occurrences: Seq<Occurrence>,
    field: int,
    term: Seq<u8>,
    doc: int,
    slot: Slot,
) -> (at: int)
    requires
        lists(postings_of(occurrences, field, term), doc, slot),
    ensures
        0 <= at < occurrences.len(),
        occurrences[at] == (Occurrence { doc, field, term, slot }),
    decreases occurrences.len(),
{
    let postings = postings_of(occurrences, field, term);
    let j = choose|j: int|
        0 <= j < postings.len() && (#[trigger] postings[j]).doc == doc && postings[j].slots.contains(
            slot,
        );
    let i = choose|i: int| 0 <= i < postings[j].slots.len() && postings[j].slots[i] == slot;
    let earlier = postings_of(occurrences.drop_last(), field, term);
    let last = occurrences.last();
    if last.field == field && last.term == term {
        let appended = earlier.len() > 0 && earlier.last().doc == last.doc;
        let is_new = if appended {
            j == earlier.len() - 1 && i == earlier.last().slots.len()
        } else {
            j == earlier.len()
        };
        if is_new {
            occurrences.len() - 1
        } else {
            lemma_listed_is_occurrence(occurrences.drop_last(), field, term, doc, slot)
        }
    } else {
        lemma_listed_is_occurrence(occurrences.drop_last(), field, term, doc, slot)
    }
}

/// The postings of a segment are exact: a term is listed at a place of a
/// document exactly when the document holds the term there.
pub proof fn lemma_postings_exact(
    segment: Segment,
    doc: int,
    field: int,
    term: Seq<u8>,
    entry: int,
    position: int,
)
    requires
        segment.wf(),
    ensures
        has_slot(slots_in(segment_postings(segment@, field, term), doc), entry, position)
            <==> stands_at(segment@, doc, field, term, entry, position),
{
    let docs = segment@;
    let postings = segment_postings(docs, field, term);
    let slots = slots_in(postings, doc);
    segment.lemma_postings_ordered(field, term);
    if stands_at(docs, doc, field, term, entry, position) {
        let k = choose|k: int|
            0 <= k < docs[doc].occurrences.len() && is_occurrence(
                #[trigger] docs[doc].occurrences[k],
                field,
                term,
                entry,
                position,
            );
        let at = lemma_occurrence_listed(docs, doc, k);
        lemma_occurrence_is_listed(all_occurrences(docs), at);
    }
    if has_slot(slots, entry, position) {
        let i = choose|i: int|
            0 <= i < slots.len() && (#[trigger] slots[i]).entry == entry && slots[i].position
                == position;
        let slot = slots[i];
        let at = lemma_listed_is_occurrence(all_occurrences(docs), field, term, doc, slot);
        lemma_listed_occurrence(docs, at);
    }
}

proof fn lemma_single_term_counts_all(
    docs: Seq<AnalyzedView>,
    leaf: LeafView,
    doc: int,
    starts: Seq<Slot>,
    n: int,
)
    requires
        leaf.terms.len() == 1,
        0 <= n,
    ensures
        count_starts(docs, leaf, doc, starts, n) == n,
    decreases n,
{
    if n > 0 {
        lemma_single_term_counts_all(docs, leaf, doc, starts, n - 1);
    }
}

/// The frequency of a single term in a document is the number of places
/// that its posting lists for the document.
pub proof fn lemma_term_frequency(docs: Seq<AnalyzedView>, leaf: LeafView, doc: int)
    requires
        leaf.terms.len() == 1,
    ensures
        leaf_tf(docs, leaf, doc) == first_term_slots(docs, leaf, doc).len(),
{
    let starts = first_term_slots(docs, leaf, doc);
    lemma_single_term_counts_all(docs, leaf, doc, starts, starts.len() as int);
}

proof fn lemma_count_positive(
    docs: Seq<AnalyzedView>,
    leaf: LeafView,
    doc: int,
    starts: Seq<Slot>,
    n: int,
)
    requires
        0 <= n,
    ensures
        count_starts(docs, leaf, doc, starts, n) > 0 <==> exists|k: int|
            0 <= k < n && phrase_starts_at(docs, leaf, doc, #[trigger] starts[k]),
    decreases n,
{
    if n > 0 {
        lemma_count_positive(docs, leaf, doc, starts, n - 1);
    }
}

/// A term or phrase occurs in a document exactly when its terms stand
/// there side by side, in one entry of its field. In particular a phrase
/// never matches terms that are apart, out of order or in different
/// entries.
pub proof fn lemma_phrase_semantics(segment: Segment, leaf: LeafView, doc: int)
    requires
        segment.wf(),
        leaf.terms.len() > 0,
    ensures
        leaf_tf(segment@, leaf, doc) > 0 <==> phrase_stands(segment@, doc, leaf),
{
    let docs = segment@;
    let starts = first_term_slots(docs, leaf, doc);
    lemma_count_positive(docs, leaf, doc, starts, starts.len() as int);
    if leaf_tf(docs, leaf, doc) > 0 {
        let k = choose|k: int|
            0 <= k < starts.len() && phrase_starts_at(docs, leaf, doc, #[trigger] starts[k]);
        let entry = starts[k].entry as int;
        let position = starts[k].position as int;
        assert forall|i: int| 0 <= i < leaf.terms.len() implies stands_at(
            docs,
            doc,
            leaf.field,
            #[trigger] leaf.terms[i],
            entry,
            position + i,
        ) by {
            lemma_postings_exact(segment, doc, leaf.field, leaf.terms[i], entry, position + i);
        }
        assert(phrase_stands_from(docs, doc, leaf, entry, position));
    }
    if phrase_stands(docs, doc, leaf) {
        let (entry, position) = choose|entry: int, position: int|
            phrase_stands_from(docs, doc, leaf, entry, position);
        lemma_postings_exact(segment, doc, leaf.field, leaf.terms[0], entry, position);
        let k = choose|k: int|
            0 <= k < starts.len() && (#[trigger] starts[k]).entry == entry && starts[k].position
                == position;
        assert forall|i: int| 1 <= i < leaf.terms.len() implies has_slot(
            slots_in(segment_postings(docs, leaf.field, #[trigger] leaf.terms[i]), doc),
            starts[k].entry as int,
            starts[k].position + i,
        ) by {
            lemma_postings_exact(segment, doc, leaf.field, leaf.terms[i], entry, position + i);
        }
    }
}

/// The tokens of entry `entry` of the document, from position `position`
/// on, are the terms of the phrase, in order, and the entry belongs to the
/// phrase's field, which is indexed.
pub open spec fn tokens_stand_from(
    schema: Seq<FieldView>,
    analyzer: Analyzer,
    entries: Seq<EntryView>,
    leaf: LeafView,
    entry: int,
    position: int,
) -> bool {
    forall|i: int|
        0 <= i < leaf.terms.len() ==> token_stands(
            schema,
            analyzer,
            entries,
            leaf.field,
            #[trigger] leaf.terms[i],
            entry,
            position + i,
        )
}

/// Phrase precision: a term or phrase matches a document exactly when
/// consecutive tokens of one entry of the document, in the phrase's field,
/// are the terms of the phrase in order. Terms that are apart, out of order
/// or in different entries do not match.
pub proof fn lemma_phrase_matches_adjacent_tokens(
    segment: Segment,
    doc: int,
    schema: Seq<FieldView>,
    analyzer: Analyzer,
    entries: Seq<EntryView>,
    leaf: LeafView,
)
    requires
        segment.wf(),
        0 <= doc < segment@.len(),
        segment@[doc] == analyzed(schema, analyzer, entries),
        document_error(schema, entries) is None,
        document_fits(schema, analyzer, entries),
        leaf.terms.len() > 0,
    ensures
        leaf_tf(segment@, leaf, doc) > 0 <==> exists|entry: int, position: int|
            tokens_stand_from(schema, analyzer, entries, leaf, entry, position),
{
    let docs = segment@;
    lemma_phrase_semantics(segment, leaf, doc);
    assert forall|entry: int, position: int|
        phrase_stands_from(docs, doc, leaf, entry, position) <==> tokens_stand_from(
            schema,
            analyzer,
            entries,
            leaf,
            entry,
            position,
        ) by {
        assert forall|i: int| 0 <= i < leaf.terms.len() implies (stands_at(
            docs,
            doc,
            leaf.field,
            #[trigger] leaf.terms[i],
            entry,
            position + i,
        ) <==> token_stands(
            schema,
            analyzer,
            entries,
            leaf.field,
            leaf.terms[i],
            entry,
            position + i,
        )) by {
            lemma_occurrences_are_tokens(
                schema,
                analyzer,
                entries,
                leaf.field,
                leaf.terms[i],
                entry,
                position + i,
            );
        }
    }
    if phrase_stands(docs, doc, leaf) {
        let (entry, position) = choose|entry: int, position: int|
            phrase_stands_from(docs, doc, leaf, entry, position);
        assert(tokens_stand_from(schema, analyzer, entries, leaf, entry, position));
    }
    if exists|entry: int, position: int|
        tokens_stand_from(schema, analyzer, entries, leaf, entry, position) {
        let (entry, position) = choose|entry: int, position: int|
            tokens_stand_from(schema, analyzer, entries, leaf, entry, position);
        assert(phrase_stands_from(docs, doc, leaf, entry, position));
    }
}

/// A document matches every term that it holds in an indexed field: the
/// frequency of the term in the document is positive.
pub proof fn lemma_indexed_term_matches(segment: Segment, doc: int, k: int)
    requires
        segment.wf(),
        0 <= doc < segment@.len(),
        0 <= k < segment@[doc].occurrences.len(),
    ensures
        leaf_tf(
            segment@,
            LeafView {
                field: segment@[doc].occurrences[k].field,
                terms: seq![segment@[doc].occurrences[k].term],
            },
            doc,
        ) > 0,
{
    let docs = segment@;
    let found = docs[doc].occurrences[k];
    let leaf = LeafView { field: found.field, terms: seq![found.term] };
    let entry = found.slot.entry as int;
    let position = found.slot.position as int;
    assert(phrase_stands_from(docs, doc, leaf, entry, position));
    lemma_phrase_semantics(segment, leaf, doc);
}

} // verus!
