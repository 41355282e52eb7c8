//! Laws of the index that relate several of its operations.

use crate::analysis::{AnalyzedView, analyzed, document_error, field_number, lemma_token_is_kept};
use crate::document::EntryView;
use crate::inverted::lemma_indexed_term_matches;
use crate::matching::LeafView;
use crate::segment::Segment;
use crate::index::{
    Index, IndexReader, SearchHit, clause_leaves, default_fields, hit_keys, ids_below,
    is_search_result, lemma_default_fields, named_fields, query_leaves, snapshot_of,
    stored_field_views,
};
use crate::query::{ClauseView, ParseError, is_plain_term, lemma_term_query, parsed};
use crate::ranking::{Hit, lemma_top_k_unique, outranks};
use crate::schema::FieldView;
use crate::scoring::{
    MAX_WEIGHT, candidates, doc_score, is_hit_of, lemma_score_bound, lemma_score_positive_iff_match,
};
use crate::tokenizer::{Analyzer, TokenizerKind};
use vstd::prelude::*;
use vstd::utf8::*;

verus! {

/// Tokenizing is a function of the analyzer, the tokenizer kind and the
/// text: equal inputs give equal token sequences, texts, offsets and
/// positions included.
pub proof fn lemma_tokenize_deterministic(
    analyzer: Analyzer,
    kind: TokenizerKind,
    first: Seq<char>,
    second: Seq<char>,
)
    requires
        first == second,
    ensures
        analyzer.tokens(kind, first) == analyzer.tokens(kind, second),
{
}

/// A search reads nothing of an index but the schema and the segments that
/// its snapshot lists: two lists of segments that agree on the segments of
/// the first give the same answers to every query on a snapshot of the
/// first.
pub proof fn lemma_search_reads_snapshot_only(
    hits: Seq<SearchHit>,
    schema: Seq<FieldView>,
    before: Seq<Seq<AnalyzedView>>,
    after: Seq<Seq<AnalyzedView>>,
    ids: Seq<usize>,
    clauses: Seq<ClauseView>,
    limit: int,
)
    requires
        ids_below(ids, before.len() as int),
        before.len() <= after.len(),
        forall|i: int| 0 <= i < before.len() ==> before[i] == after[i],
    ensures
        snapshot_of(after, ids) == snapshot_of(before, ids),
        is_search_result(hits, schema, after, ids, clauses, limit) == is_search_result(
            hits,
            schema,
            before,
            ids,
            clauses,
            limit,
        ),
{
    let leaves = query_leaves(
        clauses,
        default_fields(schema, schema.len() as int),
        clauses.len() as int,
    );
    let wanted = candidates(snapshot_of(before, ids), ids, leaves);
    assert(snapshot_of(after, ids) =~= snapshot_of(before, ids));
    // Every result stands for a document of a segment that the snapshot lists.
    assert forall|i: int|
        0 <= i < hits.len() && (is_search_result(hits, schema, after, ids, clauses, limit)
            || is_search_result(hits, schema, before, ids, clauses, limit)) implies before[(
    #[trigger] hits[i]).segment as int] == after[hits[i].segment as int] by {
        assert(wanted.contains(hit_keys(hits)[i]));
    }
}

/// Visibility: documents that are added and not committed are absent from
/// every search. Adding a document leaves the schema, the segments and the
/// list of committed segments as they were; so every reader, whether it was
/// opened before the document was added or after, gets the answers it got
/// before.
pub proof fn lemma_added_documents_are_invisible(
    before: Index,
    after: Index,
    reader: IndexReader,
    hits: Seq<SearchHit>,
    clauses: Seq<ClauseView>,
    limit: int,
)
    requires
        after.schema() == before.schema(),
        after.segments() == before.segments(),
        after.committed() == before.committed(),
    ensures
        is_search_result(hits, after.schema(), after.segments(), reader@, clauses, limit)
            == is_search_result(
            hits,
            before.schema(),
            before.segments(),
            reader@,
            clauses,
            limit,
        ),
        is_search_result(hits, after.schema(), after.segments(), after.committed(), clauses, limit)
            == is_search_result(
            hits,
            before.schema(),
            before.segments(),
            before.committed(),
            clauses,
            limit,
        ),
{
}

/// Snapshot isolation: a commit appends a segment and touches no other. A
/// reader that was opened before the commit and is not reloaded gets the
/// answers it got before.
pub proof fn lemma_commit_is_invisible_until_reload(
    before: Index,
    after: Index,
    reader: IndexReader,
    hits: Seq<SearchHit>,
    clauses: Seq<ClauseView>,
    limit: int,
)
    requires
        reader.fits(&before),
        after.schema() == before.schema(),
        after.segments() == before.segments().push(before.pending()),
    ensures
        is_search_result(hits, after.schema(), after.segments(), reader@, clauses, limit)
            == is_search_result(
            hits,
            before.schema(),
            before.segments(),
            reader@,
            clauses,
            limit,
        ),
{
    lemma_search_reads_snapshot_only(
        hits,
        before.schema(),
        before.segments(),
        after.segments(),
        reader@,
        clauses,
        limit,
    );
}

/// Reload: after a commit, the snapshot of a reloaded reader is the
/// snapshot before the commit followed by the new segment, which holds
/// the documents that were buffered.
pub proof fn lemma_reload_shows_the_commit(before: Index, after: Index)
    requires
        before.wf(),
        after.segments() == before.segments().push(before.pending()),
        after.committed() == before.committed().push(before.segments().len() as usize),
    ensures
        snapshot_of(after.segments(), after.committed()) == snapshot_of(
            before.segments(),
            before.committed(),
        ).push(before.pending()),
{
    before.lemma_committed_listed();
    before.lemma_segment_count_fits();
}

/// Round trip: a committed document is found by every token that the
/// tokenizer of an indexed field cuts from the document's text in that
/// field. Its score for a query that holds the token as a term of the field
/// is positive, so its hit is among the hits that the search ranks.
pub proof fn lemma_committed_token_is_found(
    segment: Segment,
    schema: Seq<FieldView>,
    analyzer: Analyzer,
    entries: Seq<EntryView>,
    doc: int,
    e: int,
    p: int,
    segments: Seq<Seq<AnalyzedView>>,
    s: int,
    leaves: Seq<LeafView>,
    l: int,
)
    requires
        segment.wf(),
        0 <= s < segments.len(),
        segments[s] == segment@,
        0 <= doc < segment@.len(),
        segment@[doc] == analyzed(schema, analyzer, entries),
        document_error(schema, entries) is None,
        0 <= e < entries.len(),
        schema[field_number(schema, entries[e].name)].options.indexed,
        0 <= p < analyzer.tokens(
            schema[field_number(schema, entries[e].name)].options.tokenizer,
            entries[e].value->Text_0,
        ).len(),
        0 <= l < leaves.len(),
        leaves[l] == (LeafView {
            field: field_number(schema, entries[e].name),
            terms: seq![
                encode_utf8(
                    analyzer.tokens(
                        schema[field_number(schema, entries[e].name)].options.tokenizer,
                        entries[e].value->Text_0,
                    )[p].text,
                ),
            ],
        }),
    ensures
        doc_score(segments, leaves, leaves.len() as int, s, doc) > 0,
{
    let k = lemma_token_is_kept(schema, analyzer, entries, e, p);
    lemma_indexed_term_matches(segment, doc, k);
    lemma_score_positive_iff_match(segments, leaves, s, doc);
}

/// Round trip: in an index that holds one committed document, a search for
/// a token of that document returns exactly that document with its stored
/// fields. The token is any token that the tokenizer of an indexed field
/// cuts from the document's text in that field and that can stand as a term
/// in a query: it is not empty and holds no white space, quote or colon.
pub proof fn lemma_token_query_returns_the_document(
    segment: Segment,
    schema: Seq<FieldView>,
    analyzer: Analyzer,
    entries: Seq<EntryView>,
    e: int,
    p: int,
    segments: Seq<Seq<AnalyzedView>>,
    id: usize,
    clauses: Seq<ClauseView>,
    hits: Seq<SearchHit>,
    limit: int,
)
    requires
        segment.wf(),
        schema.len() <= usize::MAX,
        id < segments.len(),
        segments[id as int] == segment@,
        segment@ == seq![analyzed(schema, analyzer, entries)],
        document_error(schema, entries) is None,
        0 <= e < entries.len(),
        schema[field_number(schema, entries[e].name)].options.indexed,
        0 <= p < analyzer.tokens(
            schema[field_number(schema, entries[e].name)].options.tokenizer,
            entries[e].value->Text_0,
        ).len(),
        is_plain_term(
            encode_utf8(
                analyzer.tokens(
                    schema[field_number(schema, entries[e].name)].options.tokenizer,
                    entries[e].value->Text_0,
                )[p].text,
            ),
        ),
        parsed(
            schema,
            encode_utf8(
                analyzer.tokens(
                    schema[field_number(schema, entries[e].name)].options.tokenizer,
                    entries[e].value->Text_0,
                )[p].text,
            ),
        ) == Ok::<Seq<ClauseView>, ParseError>(clauses),
        limit >= 1,
        is_search_result(hits, schema, segments, seq![id], clauses, limit),
    ensures
        hits.len() == 1,
        hits[0].segment == id,
        hits[0].doc == 0,
        stored_field_views(hits[0].fields@) == named_fields(
            schema,
            analyzed(schema, analyzer, entries).stored,
        ),
{
    let field = field_number(schema, entries[e].name);
    let term = encode_utf8(
        analyzer.tokens(schema[field].options.tokenizer, entries[e].value->Text_0)[p].text,
    );
    let ids = seq![id];
    let snapshot = snapshot_of(segments, ids);
    let defaults = default_fields(schema, schema.len() as int);
    let leaves = query_leaves(clauses, defaults, clauses.len() as int);
    let wanted = candidates(snapshot, ids, leaves);
    // The query is the one clause that holds the token as a term.
    lemma_term_query(schema, term);
    let clause = ClauseView { field: None, terms: seq![term] };
    assert(clauses[0] == clause);
    assert(query_leaves(clauses, defaults, 0) =~= Seq::<LeafView>::empty());
    assert(leaves =~= clause_leaves(clause, defaults));
    // Its leaves hold the term in the token's field, which is indexed.
    lemma_token_is_kept(schema, analyzer, entries, e, p);
    lemma_default_fields(schema, schema.len() as int, field);
    let l = choose|l: int| 0 <= l < defaults.len() && defaults[l] == field;
    assert(leaves[l] == (LeafView { field, terms: seq![term] }));
    // So the document has a positive score, and its hit is a candidate.
    assert(snapshot =~= seq![segment@]);
    lemma_committed_token_is_found(
        segment,
        schema,
        analyzer,
        entries,
        0,
        e,
        p,
        snapshot,
        0,
        leaves,
        l,
    );
    let score = doc_score(snapshot, leaves, leaves.len() as int, 0, 0);
    lemma_score_bound(snapshot, leaves, leaves.len() as int, 0, 0);
    assert(leaves.len() * MAX_WEIGHT <= usize::MAX * MAX_WEIGHT) by (nonlinear_arith)
        requires
            leaves.len() <= usize::MAX,
    ;
    let hit = Hit { score: score as u128, segment: id, doc: 0 };
    assert(is_hit_of(snapshot, ids, leaves, 0, hit));
    assert(wanted.contains(hit));
    // It is the only candidate, so it is the whole ranking.
    assert forall|other: Hit| wanted.contains(other) implies other == hit by {
        let s = choose|s: int| is_hit_of(snapshot, ids, leaves, s, other);
        assert(s == 0);
    }
    let keys = hit_keys(hits);
    assert forall|i: int| 0 <= i < keys.len() implies keys[i] == hit by {
        assert(wanted.contains(keys[i]));
    }
    if keys.len() >= 2 {
        assert(outranks(keys[0], keys[1]));
    }
    if keys.len() == 0 {
        assert(!keys.contains(hit));
    }
    assert(hits[0].key() == keys[0]);
}

/// Round trip on an index: when the committed segments of an index hold
/// one document and no more, the answer to a query that is a token of that
/// document is that document with its stored fields. This is what
/// `search_index` returns after `write_index` on an empty index.
pub proof fn lemma_search_for_token_returns_the_document(
    index: Index,
    entries: Seq<EntryView>,
    e: int,
    p: int,
    id: usize,
    clauses: Seq<ClauseView>,
    hits: Seq<SearchHit>,
    limit: int,
)
    requires
        index.wf(),
        index.committed() == seq![id],
        id < index.segments().len(),
        index.segments()[id as int] == seq![analyzed(index.schema(), index.analyzer(), entries)],
        document_error(index.schema(), entries) is None,
        0 <= e < entries.len(),
        index.schema()[field_number(index.schema(), entries[e].name)].options.indexed,
        0 <= p < index.analyzer().tokens(
            index.schema()[field_number(index.schema(), entries[e].name)].options.tokenizer,
            entries[e].value->Text_0,
        ).len(),
        is_plain_term(
            encode_utf8(
                index.analyzer().tokens(
                    index.schema()[field_number(
                        index.schema(),
                        entries[e].name,
                    )].options.tokenizer,
                    entries[e].value->Text_0,
                )[p].text,
            ),
        ),
        parsed(
            index.schema(),
            encode_utf8(
                index.analyzer().tokens(
                    index.schema()[field_number(
                        index.schema(),
                        entries[e].name,
                    )].options.tokenizer,
                    entries[e].value->Text_0,
                )[p].text,
            ),
        ) == Ok::<Seq<ClauseView>, ParseError>(clauses),
        limit >= 1,
        is_search_result(hits, index.schema(), index.segments(), index.committed(), clauses, limit),
    ensures
        hits.len() == 1,
        hits[0].segment == id,
        hits[0].doc == 0,
        stored_field_views(hits[0].fields@) == named_fields(
            index.schema(),
            analyzed(index.schema(), index.analyzer(), entries).stored,
        ),
{
    let segment = index.lemma_segment(id as int);
    index.lemma_field_count_fits();
    lemma_token_query_returns_the_document(
        segment,
        index.schema(),
        index.analyzer(),
        entries,
        e,
        p,
        index.segments(),
        id,
        clauses,
        hits,
        limit,
    );
}

/// A snapshot without documents has no results: whatever the query, the
/// answer is the empty list.
pub proof fn lemma_empty_snapshot_has_no_hits(
    hits: Seq<SearchHit>,
    schema: Seq<FieldView>,
    segments: Seq<Seq<AnalyzedView>>,
    ids: Seq<usize>,
    clauses: Seq<ClauseView>,
    limit: int,
)
    requires
        is_search_result(hits, schema, segments, ids, clauses, limit),
        forall|s: int| 0 <= s < ids.len() ==> segments[(#[trigger] ids[s]) as int].len() == 0,
    ensures
        hits.len() == 0,
{
    let leaves = query_leaves(
        clauses,
        default_fields(schema, schema.len() as int),
        clauses.len() as int,
    );
    if hits.len() > 0 {
        // The first result would stand for a document of a listed segment.
        assert(candidates(snapshot_of(segments, ids), ids, leaves).contains(hit_keys(hits)[0]));
    }
}

/// The answer to a query on a snapshot is unique: the same documents with
/// the same scores and stored fields, in the same order.
pub proof fn lemma_ranking_deterministic(
    first: Seq<SearchHit>,
    second: Seq<SearchHit>,
    schema: Seq<FieldView>,
    segments: Seq<Seq<AnalyzedView>>,
    ids: Seq<usize>,
    clauses: Seq<ClauseView>,
    limit: int,
)
    requires
        is_search_result(first, schema, segments, ids, clauses, limit),
        is_search_result(second, schema, segments, ids, clauses, limit),
    ensures
        hit_keys(first) == hit_keys(second),
        forall|i: int|
            0 <= i < first.len() ==> stored_field_views((#[trigger] first[i]).fields@)
                == stored_field_views(second[i].fields@),
{
    let wanted = crate::scoring::candidates(
        snapshot_of(segments, ids),
        ids,
        crate::index::query_leaves(
            clauses,
            crate::index::default_fields(schema, schema.len() as int),
            clauses.len() as int,
        ),
    );
    lemma_top_k_unique(hit_keys(first), hit_keys(second), limit, wanted);
    assert forall|i: int| 0 <= i < first.len() implies stored_field_views(
        (#[trigger] first[i]).fields@,
    ) == stored_field_views(second[i].fields@) by {
        assert(hit_keys(first)[i] == hit_keys(second)[i]);
    }
}

} // verus!
