//! The index: a schema, the committed segments, and the writer's buffer.
//!
//! Segments are only ever appended. A commit moves the buffered documents
//! into a new segment and lists that segment; readers work on the list of
//! segments they captured when they were opened or last reloaded.

use crate::analysis::{
    AnalyzedView, analyze_document, analyzed, analyzer_covers, docs_fit, document_error,
    needs_dictionary,
};
use crate::document::{Document, StoredView, stored_views};
use crate::matching::{Leaf, LeafView, leaf_views};
use crate::query::{ClauseView, ParseError, Query, byte_views, parse_query, parsed};
use crate::ranking::{Hit, is_top_k};
use crate::schema::{FieldView, Schema, SchemaError};
use crate::scoring::{candidates, evaluate, snapshot_docs};
use crate::segment::Segment;
use crate::tokenizer::Analyzer;
use vstd::prelude::*;
use vstd::slice::slice_to_vec;
use vstd::string::*;

verus! {

/// Why an operation on an index failed.
#[derive(Clone, Copy, PartialEq, Eq, Debug, Structural)]
pub enum EngineError {
    /// The schema or the document is invalid.
    Schema(SchemaError),
    /// Reading or writing the index failed.
    Io,
    /// Another writer holds the write lock.
    LockContention,
    /// The query is malformed.
    Parse(ParseError),
    /// The list of committed segments names a segment that is missing.
    CorruptIndex,
}

/// A stored value of a search result, with the name of its field.
#[derive(Debug, PartialEq, Eq)]
pub struct StoredField {
    pub name: String,
    pub value: String,
}

/// The mathematical value of a [`StoredField`].
pub struct StoredFieldView {
    pub name: Seq<char>,
    pub value: Seq<char>,
}

impl View for StoredField {
    type V = StoredFieldView;

    open spec fn view(&self) -> StoredFieldView {
        StoredFieldView { name: self.name@, value: self.value@ }
    }
}

/// The values of a list of stored fields.
pub open spec fn stored_field_views(fields: Seq<StoredField>) -> Seq<StoredFieldView> {
    Seq::new(fields.len(), |i: int| fields[i]@)
}

/// One search result: the score and place of a matching document and its
/// stored fields.
#[derive(Debug, PartialEq, Eq)]
pub struct SearchHit {
    pub score: u128,
    pub segment: usize,
    pub doc: usize,
    pub fields: Vec<StoredField>,
}

impl SearchHit {
    /// The score and place of the result.
    pub open spec fn key(&self) -> Hit {
        Hit { score: self.score, segment: self.segment, doc: self.doc }
    }
}

/// The scores and places of a list of results.
pub open spec fn hit_keys(hits: Seq<SearchHit>) -> Seq<Hit> {
    Seq::new(hits.len(), |i: int| hits[i].key())
}

/// The stored values of a document with the names of their fields.
pub open spec fn named_fields(schema: Seq<FieldView>, stored: Seq<StoredView>) -> Seq<StoredFieldView> {
    Seq::new(
        stored.len(),
        |k: int| StoredFieldView { name: schema[stored[k].field].name, value: stored[k].value },
    )
}

/// The numbers of the indexed fields among the first `n`, ascending. A
/// clause without a field name is looked for in each of them.
pub open spec fn default_fields(schema: Seq<FieldView>, n: int) -> Seq<int>
    decreases n,
{
    if n <= 0 {
        seq![]
    } else if schema[n - 1].options.indexed {
        default_fields(schema, n - 1).push(n - 1)
    } else {
        default_fields(schema, n - 1)
    }
}

/// The default fields are the indexed fields: each of them is listed, and
/// no more fields are listed than the schema has.
pub proof fn lemma_default_fields(schema: Seq<FieldView>, n: int, field: int)
    requires
        0 <= n,
    ensures
        default_fields(schema, n).len() <= n,
        0 <= field < n && schema[field].options.indexed ==> default_fields(schema, n).contains(
            field,
        ),
    decreases n,
{
    if n > 0 {
        lemma_default_fields(schema, n - 1, field);
        let shorter = default_fields(schema, n - 1);
        let list = default_fields(schema, n);
        if 0 <= field < n && schema[field].options.indexed {
            if field == n - 1 {
                assert(list[list.len() - 1] == field);
            } else {
                let k = choose|k: int| 0 <= k < shorter.len() && shorter[k] == field;
                assert(list[k] == field);
            }
        }
    }
}

/// The leaves of a clause: the clause in its own field, or in each of the
/// default fields when it names none.
pub open spec fn clause_leaves(clause: ClauseView, defaults: Seq<int>) -> Seq<LeafView> {
    match clause.field {
        Some(field) => seq![LeafView { field, terms: clause.terms }],
        None => Seq::new(
            defaults.len(),
            |k: int| LeafView { field: defaults[k], terms: clause.terms },
        ),
    }
}

/// The leaves of the first `n` clauses of a query. A document matches the
/// query when it matches one of the leaves.
pub open spec fn query_leaves(clauses: Seq<ClauseView>, defaults: Seq<int>, n: int) -> Seq<LeafView>
    decreases n,
{
    if n <= 0 {
        seq![]
    } else {
        query_leaves(clauses, defaults, n - 1) + clause_leaves(clauses[n - 1], defaults)
    }
}

/// The documents of the segments with the numbers `ids`.
pub open spec fn snapshot_of(segments: Seq<Seq<AnalyzedView>>, ids: Seq<usize>) -> Seq<
    Seq<AnalyzedView>,
> {
    Seq::new(ids.len(), |s: int| segments[ids[s] as int])
}

/// `hits` is the answer to a query on a snapshot: the best `limit` of the
/// matching documents in rank order, each with its stored fields.
pub open spec fn is_search_result(
    hits: Seq<SearchHit>,
    schema: Seq<FieldView>,
    segments: Seq<Seq<AnalyzedView>>,
    ids: Seq<usize>,
    clauses: Seq<ClauseView>,
    limit: int,
) -> bool {
    &&& is_top_k(
        hit_keys(hits),
        limit,
        candidates(
            snapshot_of(segments, ids),
            ids,
            query_leaves(clauses, default_fields(schema, schema.len() as int), clauses.len() as int),
        ),
    )
    &&& forall|i: int|
        0 <= i < hits.len() ==> stored_field_views((#[trigger] hits[i]).fields@) == named_fields(
            schema,
            segments[hits[i].segment as int][hits[i].doc as int].stored,
        )
}

/// The ids stand in strictly ascending order.
pub open spec fn ascending(ids: Seq<usize>) -> bool {
    forall|s: int, t: int| 0 <= s < t < ids.len() ==> (#[trigger] ids[s]) < (#[trigger] ids[t])
}

/// Every id names one of the first `count` segments.
pub open spec fn ids_below(ids: Seq<usize>, count: int) -> bool {
    forall|s: int| 0 <= s < ids.len() ==> (#[trigger] ids[s]) < count
}

/// The documents of a list of segments.
pub open spec fn segment_docs(segments: Seq<Segment>) -> Seq<Seq<AnalyzedView>> {
    Seq::new(segments.len(), |i: int| segments[i]@)
}

/// The parts of an index fit together: every committed segment exists, the
/// committed segments are listed once each in ascending order, and every
/// stored value belongs to a field of the schema.
pub open spec fn parts_consistent(
    schema: Seq<FieldView>,
    segments: Seq<Seq<AnalyzedView>>,
    committed: Seq<usize>,
) -> bool {
    &&& ids_below(committed, segments.len() as int)
    &&& ascending(committed)
    &&& forall|i: int| 0 <= i < segments.len() ==> docs_fit(#[trigger] segments[i], schema.len() as int)
}

/// An index.
pub struct Index {
    schema: Schema,
    analyzer: Analyzer,
    store: Vec<Segment>,
    committed: Vec<usize>,
    pending: Segment,
    locked: bool,
    identity: Ghost<int>,
}

/// The exclusive right to write to one index. It is handed out by
/// [`Index::writer`], names the index it was taken from, and is given back
/// with [`IndexWriter::close`].
pub struct IndexWriter {
    index: Ghost<int>,
}

/// A snapshot of the committed segments of an index.
pub struct IndexReader {
    snapshot: Vec<usize>,
}

impl Index {
    /// The fields of the index.
    pub closed spec fn schema(&self) -> Seq<FieldView> {
        self.schema@
    }

    /// The tokenizers of the index.
    pub closed spec fn analyzer(&self) -> Analyzer {
        self.analyzer
    }

    /// The documents of every segment ever written, by segment number.
    pub closed spec fn segments(&self) -> Seq<Seq<AnalyzedView>> {
        Seq::new(self.store@.len(), |i: int| self.store@[i]@)
    }

    /// The numbers of the committed segments in commit order.
    pub closed spec fn committed(&self) -> Seq<usize> {
        self.committed@
    }

    /// The documents added since the last commit.
    pub closed spec fn pending(&self) -> Seq<AnalyzedView> {
        self.pending@
    }

    /// A writer holds the write lock.
    pub closed spec fn locked(&self) -> bool {
        self.locked
    }

    /// The identity of the index. It tells the index from every other one
    /// in contracts: nothing is known of it but that every operation on the
    /// index keeps it.
    pub closed spec fn identity(&self) -> int {
        self.identity@
    }

    /// The index is consistent: its parts are well formed, the committed
    /// segments exist and are listed once each in ascending order, and
    /// documents are buffered only while a writer holds the lock.
    pub closed spec fn wf(&self) -> bool {
        &&& self.schema.wf()
        &&& analyzer_covers(self.schema@, self.analyzer)
        &&& forall|i: int| 0 <= i < self.store.len() ==> (#[trigger] self.store[i]).wf()
        &&& forall|i: int|
            0 <= i < self.store.len() ==> docs_fit(
                (#[trigger] self.store[i])@,
                self.schema@.len() as int,
            )
        &&& self.pending.wf()
        &&& docs_fit(self.pending@, self.schema@.len() as int)
        &&& ascending(self.committed@)
        &&& ids_below(self.committed@, self.store.len() as int)
        &&& (!self.locked ==> self.pending@.len() == 0)
    }

    /// What well-formedness says of the committed list.
    pub proof fn lemma_committed_listed(&self)
        requires
            self.wf(),
        ensures
            ascending(self.committed()),
            ids_below(self.committed(), self.segments().len() as int),
    {
    }

    /// Every segment of a consistent index is a well-formed segment.
    pub proof fn lemma_segment(&self, id: int) -> (segment: Segment)
        requires
            self.wf(),
            0 <= id < self.segments().len(),
        ensures
            segment.wf(),
            segment@ == self.segments()[id],
    {
        self.store@[id]
    }

    /// The number of fields fits a machine word.
    pub proof fn lemma_field_count_fits(&self)
        ensures
            self.schema().len() <= usize::MAX,
    {
        self.schema.lemma_len_fits();
    }

    /// The number of segments fits a machine word.
    pub proof fn lemma_segment_count_fits(&self)
        ensures
            self.segments().len() <= usize::MAX,
    {
        vstd::std_specs::vec::axiom_spec_len(&self.store);
    }

    /// While no writer holds the lock, no document is buffered.
    pub proof fn lemma_unlocked_has_no_pending(&self)
        requires
            self.wf(),
            !self.locked(),
        ensures
            self.pending() == Seq::<AnalyzedView>::empty(),
    {
    }

    /// A new index without documents.
    pub fn create(schema: Schema) -> (index: Self)
        requires
            schema.wf(),
        ensures
            index.wf(),
            index.schema() == schema@,
            index.segments() == Seq::<Seq<AnalyzedView>>::empty(),
            index.committed() == Seq::<usize>::empty(),
            index.pending() == Seq::<AnalyzedView>::empty(),
            !index.locked(),
    {
        let with_dictionary = needs_dictionary(&schema);
        let analyzer = Analyzer::new(with_dictionary);
        let index = Index {
            schema,
            analyzer,
            store: Vec::new(),
            committed: Vec::new(),
            pending: Segment::new(),
            locked: false,
            identity: Ghost(arbitrary()),
        };
        index
    }

    /// Opens an index from its parts: the schema, every segment that was
    /// written, and the list of the committed ones. The index is refused as
    /// corrupt when the list names a segment that is missing, when it is not
    /// in ascending order, or when a segment holds a value for a field that
    /// the schema does not have.
    pub fn open(schema: Schema, segments: Vec<Segment>, committed: Vec<usize>) -> (r: Result<
        Index,
        EngineError,
    >)
        requires
            schema.wf(),
            forall|i: int| 0 <= i < segments.len() ==> (#[trigger] segments[i]).wf(),
        ensures
            match r {
                Ok(index) => {
                    &&& parts_consistent(schema@, segment_docs(segments@), committed@)
                    &&& index.wf()
                    &&& index.schema() == schema@
                    &&& index.segments() == segment_docs(segments@)
                    &&& index.committed() == committed@
                    &&& index.pending() == Seq::<AnalyzedView>::empty()
                    &&& !index.locked()
                },
                Err(e) => e == EngineError::CorruptIndex && !parts_consistent(
                    schema@,
                    segment_docs(segments@),
                    committed@,
                ),
            },
    {
        let ghost docs = segment_docs(segments@);
        let mut s: usize = 0;
        while s < committed.len()
            invariant
                s <= committed.len(),
                ids_below(committed@.take(s as int), segments.len() as int),
                ascending(committed@.take(s as int)),
            decreases committed.len() - s,
        {
            let id = committed[s];
            if id >= segments.len() {
                return Err(EngineError::CorruptIndex);
            }
            if s > 0 && committed[s - 1] >= id {
                return Err(EngineError::CorruptIndex);
            }
            proof {
                let shorter = committed@.take(s as int);
                let longer = committed@.take(s + 1);
                assert forall|a: int, b: int| 0 <= a < b < longer.len() implies (#[trigger] longer[a])
                    < (#[trigger] longer[b]) by {
                    if b == s && a < s - 1 {
                        assert(shorter[a] < shorter[s - 1]);
                    }
                }
            }
            s = s + 1;
        }
        assert(committed@.take(committed.len() as int) =~= committed@);
        let fields = schema.len();
        let mut i: usize = 0;
        while i < segments.len()
            invariant
                i <= segments.len(),
                fields == schema@.len(),
                docs == segment_docs(segments@),
                forall|k: int| 0 <= k < segments.len() ==> (#[trigger] segments[k]).wf(),
                forall|k: int| 0 <= k < i ==> docs_fit(#[trigger] docs[k], fields as int),
            decreases segments.len() - i,
        {
            if !segments[i].fields_below(fields) {
                assert(!docs_fit(docs[i as int], fields as int));
                return Err(EngineError::CorruptIndex);
            }
            i = i + 1;
        }
        let with_dictionary = needs_dictionary(&schema);
        let analyzer = Analyzer::new(with_dictionary);
        let index = Index {
            schema,
            analyzer,
            store: segments,
            committed,
            pending: Segment::new(),
            locked: false,
            identity: Ghost(arbitrary()),
        };
        proof {
            assert forall|k: int| 0 <= k < index.store.len() implies docs_fit(
                (#[trigger] index.store[k])@,
                index.schema@.len() as int,
            ) by {
                assert(docs_fit(docs[k], fields as int));
            }
        }
        Ok(index)
    }

    /// Gives out the parts of the index: the schema, every segment, and the
    /// list of the committed ones.
    pub fn into_parts(self) -> (parts: (Schema, Vec<Segment>, Vec<usize>))
        requires
            self.wf(),
        ensures
            parts.0.wf(),
            parts.0@ == self.schema(),
            segment_docs(parts.1@) == self.segments(),
            forall|i: int| 0 <= i < parts.1.len() ==> (#[trigger] parts.1[i]).wf(),
            parts.2@ == self.committed(),
            parts_consistent(self.schema(), self.segments(), self.committed()),
    {
        (self.schema, self.store, self.committed)
    }

    /// The schema of the index.
    pub fn get_schema(&self) -> (schema: &Schema)
        requires
            self.wf(),
        ensures
            schema.wf(),
            schema@ == self.schema(),
    {
        &self.schema
    }

    /// The number of segments ever written.
    pub fn segment_count(&self) -> (n: usize)
        ensures
            n == self.segments().len(),
    {
        self.store.len()
    }

    /// The numbers of the committed segments in commit order.
    pub fn committed_ids(&self) -> (ids: &Vec<usize>)
        ensures
            ids@ == self.committed(),
    {
        &self.committed
    }

    /// Takes the write lock. While one writer holds it, every further
    /// attempt fails at once.
    pub fn writer(&mut self) -> (r: Result<IndexWriter, EngineError>)
        requires
            old(self).wf(),
        ensures
            final(self).wf(),
            final(self).schema() == old(self).schema(),
            final(self).analyzer() == old(self).analyzer(),
            final(self).segments() == old(self).segments(),
            final(self).committed() == old(self).committed(),
            final(self).pending() == old(self).pending(),
            final(self).identity() == old(self).identity(),
            final(self).locked(),
            match r {
                Ok(writer) => !old(self).locked() && writer.holds(final(self)),
                Err(e) => old(self).locked() && e == EngineError::LockContention,
            },
    {
        if self.locked {
            Err(EngineError::LockContention)
        } else {
            self.locked = true;
            Ok(IndexWriter { index: Ghost(self.identity@) })
        }
    }

    /// Opens a reader on the segments committed so far.
    pub fn reader(&self) -> (reader: IndexReader)
        requires
            self.wf(),
        ensures
            reader.wf(),
            reader@ == self.committed(),
    {
        IndexReader { snapshot: self.committed.clone() }
    }
}

impl View for IndexReader {
    type V = Seq<usize>;

    /// The numbers of the segments that the reader sees.
    closed spec fn view(&self) -> Seq<usize> {
        self.snapshot@
    }
}

impl IndexReader {
    /// The snapshot lists each segment once, in ascending order.
    pub open spec fn wf(&self) -> bool {
        ascending(self@)
    }

    /// Every segment of the snapshot exists in `index`.
    pub open spec fn fits(&self, index: &Index) -> bool {
        ids_below(self@, index.segments().len() as int)
    }

    /// Replaces the snapshot by the segments committed by now. Searches
    /// that run on a copy of the old snapshot are not disturbed.
    pub fn reload(&mut self, index: &Index)
        requires
            index.wf(),
        ensures
            final(self).wf(),
            final(self)@ == index.committed(),
    {
        self.snapshot = index.committed.clone();
    }
}

impl IndexWriter {
    /// The identity of the index that the writer was taken from.
    pub closed spec fn index(&self) -> int {
        self.index@
    }

    /// The writer holds the write lock of `index`: the index is locked, and
    /// it is the index that the writer was taken from.
    pub open spec fn holds(&self, index: &Index) -> bool {
        index.locked() && self.index() == index.identity()
    }

    /// Adds a document to the buffer. Nothing becomes visible to readers. A
    /// document that does not fit the schema is refused and the index is
    /// left as it was.
    pub fn add_document(&mut self, index: &mut Index, doc: &Document) -> (r: Result<(), SchemaError>)
        requires
            old(index).wf(),
            old(self).holds(old(index)),
        ensures
            final(index).wf(),
            final(index).schema() == old(index).schema(),
            final(index).analyzer() == old(index).analyzer(),
            final(index).segments() == old(index).segments(),
            final(index).committed() == old(index).committed(),
            final(index).identity() == old(index).identity(),
            final(self).holds(final(index)),
            match r {
                Ok(()) => document_error(old(index).schema(), doc@) is None && final(index).pending()
                    == old(index).pending().push(
                    analyzed(old(index).schema(), old(index).analyzer(), doc@),
                ),
                Err(e) => document_error(old(index).schema(), doc@) == Some(e)
                    && final(index).pending() == old(index).pending(),
            },
    {
        match analyze_document(&index.schema, &index.analyzer, doc) {
            Err(e) => Err(e),
            Ok(kept) => {
                index.pending.add(kept);
                Ok(())
            },
        }
    }

    /// Makes the buffered documents a new segment and lists it as
    /// committed. Returns the number of the segment, or `None` when the
    /// buffer was empty and nothing changed.
    pub fn commit(&mut self, index: &mut Index) -> (r: Option<usize>)
        requires
            old(index).wf(),
            old(self).holds(old(index)),
        ensures
            final(index).wf(),
            final(index).schema() == old(index).schema(),
            final(index).analyzer() == old(index).analyzer(),
            final(index).identity() == old(index).identity(),
            final(self).holds(final(index)),
            final(index).pending() == Seq::<AnalyzedView>::empty(),
            match r {
                Some(id) => {
                    &&& old(index).pending().len() > 0
                    &&& id == old(index).segments().len()
                    &&& final(index).segments() == old(index).segments().push(
                        old(index).pending(),
                    )
                    &&& final(index).committed() == old(index).committed().push(id)
                },
                None => {
                    &&& old(index).pending().len() == 0
                    &&& final(index).segments() == old(index).segments()
                    &&& final(index).committed() == old(index).committed()
                },
            },
    {
        if index.pending.doc_count() == 0 {
            return None;
        }
        let id = index.store.len();
        let mut segment = Segment::new();
        core::mem::swap(&mut index.pending, &mut segment);
        index.store.push(segment);
        index.committed.push(id);
        Some(id)
    }

    /// Gives the write lock back. Documents that were added and not
    /// committed are dropped.
    pub fn close(self, index: &mut Index)
        requires
            old(index).wf(),
            self.holds(old(index)),
        ensures
            final(index).wf(),
            final(index).schema() == old(index).schema(),
            final(index).analyzer() == old(index).analyzer(),
            final(index).segments() == old(index).segments(),
            final(index).committed() == old(index).committed(),
            final(index).identity() == old(index).identity(),
            final(index).pending() == Seq::<AnalyzedView>::empty(),
            !final(index).locked(),
    {
        index.pending = Segment::new();
        index.locked = false;
    }
}

/// The values of a list of documents.
pub open spec fn document_views(docs: Seq<Document>) -> Seq<Seq<crate::document::EntryView>> {
    Seq::new(docs.len(), |i: int| docs[i]@)
}

/// Why a batch of documents is refused, if it is: the error of the first
/// refused document among the first `n`.
pub open spec fn batch_error(
    schema: Seq<FieldView>,
    docs: Seq<Seq<crate::document::EntryView>>,
    n: int,
) -> Option<SchemaError>
    decreases n,
{
    if n <= 0 {
        None
    } else {
        match batch_error(schema, docs, n - 1) {
            Some(e) => Some(e),
            None => document_error(schema, docs[n - 1]),
        }
    }
}

/// What the index keeps of each document of a batch.
pub open spec fn analyzed_batch(
    schema: Seq<FieldView>,
    analyzer: Analyzer,
    docs: Seq<Seq<crate::document::EntryView>>,
) -> Seq<AnalyzedView> {
    Seq::new(docs.len(), |i: int| analyzed(schema, analyzer, docs[i]))
}

impl Index {
    /// Writes a batch of documents as one segment: takes the write lock,
    /// adds the documents, commits them and gives the lock back. If the lock
    /// is held or a document does not fit the schema, nothing is written at
    /// all. An empty batch writes no segment.
    pub fn write_batch(&mut self, docs: &Vec<Document>) -> (r: Result<Option<usize>, EngineError>)
        requires
            old(self).wf(),
        ensures
            final(self).wf(),
            final(self).schema() == old(self).schema(),
            final(self).analyzer() == old(self).analyzer(),
            final(self).locked() == old(self).locked(),
            final(self).pending() == old(self).pending(),
            final(self).identity() == old(self).identity(),
            match r {
                Ok(written) => {
                    &&& !old(self).locked()
                    &&& batch_error(old(self).schema(), document_views(docs@), docs.len() as int)
                        is None
                    &&& if docs.len() == 0 {
                        &&& written is None
                        &&& final(self).segments() == old(self).segments()
                        &&& final(self).committed() == old(self).committed()
                    } else {
                        &&& written == Some(old(self).segments().len() as usize)
                        &&& final(self).segments() == old(self).segments().push(
                            analyzed_batch(
                                old(self).schema(),
                                old(self).analyzer(),
                                document_views(docs@),
                            ),
                        )
                        &&& final(self).committed() == old(self).committed().push(
                            old(self).segments().len() as usize,
                        )
                    }
                },
                Err(e) => {
                    &&& final(self).segments() == old(self).segments()
                    &&& final(self).committed() == old(self).committed()
                    &&& if old(self).locked() {
                        e == EngineError::LockContention
                    } else {
                        match batch_error(
                            old(self).schema(),
                            document_views(docs@),
                            docs.len() as int,
                        ) {
                            Some(refused) => e == EngineError::Schema(refused),
                            None => false,
                        }
                    }
                },
            },
    {
        let mut writer = match self.writer() {
            Err(e) => {
                return Err(e);
            },
            Ok(writer) => writer,
        };
        proof {
            old(self).lemma_unlocked_has_no_pending();
        }
        let ghost schema = self.schema();
        let ghost analyzer = self.analyzer();
        let ghost views = document_views(docs@);
        let mut i: usize = 0;
        while i < docs.len()
            invariant
                self.wf(),
                writer.holds(self),
                self.identity() == old(self).identity(),
                !old(self).locked(),
                old(self).pending() == Seq::<AnalyzedView>::empty(),
                self.schema() == schema,
                self.analyzer() == analyzer,
                schema == old(self).schema(),
                analyzer == old(self).analyzer(),
                self.segments() == old(self).segments(),
                self.committed() == old(self).committed(),
                views == document_views(docs@),
                i <= docs.len(),
                batch_error(schema, views, i as int) is None,
                self.pending() == analyzed_batch(schema, analyzer, views).take(i as int),
            decreases docs.len() - i,
        {
            match writer.add_document(self, &docs[i]) {
                Err(e) => {
                    proof {
                        lemma_batch_error_stays(schema, views, i + 1, docs.len() as int);
                    }
                    writer.close(self);
                    return Err(EngineError::Schema(e));
                },
                Ok(()) => {
                },
            }
            i = i + 1;
        }
        assert(analyzed_batch(schema, analyzer, views).take(docs.len() as int) =~= analyzed_batch(
            schema,
            analyzer,
            views,
        ));
        let written = writer.commit(self);
        writer.close(self);
        Ok(written)
    }
}

proof fn lemma_batch_error_stays(
    schema: Seq<FieldView>,
    docs: Seq<Seq<crate::document::EntryView>>,
    n: int,
    m: int,
)
    requires
        0 <= n <= m,
        batch_error(schema, docs, n) is Some,
    ensures
        batch_error(schema, docs, m) == batch_error(schema, docs, n),
    decreases m - n,
{
    if n < m {
        lemma_batch_error_stays(schema, docs, n, m - 1);
    }
}

/// The numbers of the fields as mathematical integers.
pub open spec fn field_numbers(fields: Seq<usize>) -> Seq<int> {
    Seq::new(fields.len(), |k: int| fields[k] as int)
}

/// Lists the indexed fields of a schema.
pub fn indexed_fields(schema: &Schema) -> (fields: Vec<usize>)
    ensures
        field_numbers(fields@) == default_fields(schema@, schema@.len() as int),
{
    let mut fields: Vec<usize> = Vec::new();
    let mut i: usize = 0;
    while i < schema.len()
        invariant
            i <= schema@.len(),
            field_numbers(fields@) == default_fields(schema@, i as int),
        decreases schema@.len() - i,
    {
        if schema.field(i).options.indexed {
            fields.push(i);
        }
        i = i + 1;
    }
    fields
}

fn copy_terms(terms: &Vec<Vec<u8>>) -> (out: Vec<Vec<u8>>)
    ensures
        byte_views(out@) == byte_views(terms@),
{
    let mut out: Vec<Vec<u8>> = Vec::new();
    let mut i: usize = 0;
    while i < terms.len()
        invariant
            i <= terms.len(),
            out.len() == i,
            forall|k: int| 0 <= k < i ==> (#[trigger] out[k])@ == terms[k]@,
        decreases terms.len() - i,
    {
        out.push(slice_to_vec(terms[i].as_slice()));
        i = i + 1;
    }
    out
}

/// Lists the leaves of a query: each clause in its own field, or in every
/// default field when it names none.
pub fn expand_query(query: &Query, defaults: &Vec<usize>) -> (leaves: Vec<Leaf>)
    ensures
        leaf_views(leaves@) == query_leaves(
            query@,
            field_numbers(defaults@),
            query@.len() as int,
        ),
{
    let ghost numbers = field_numbers(defaults@);
    let mut leaves: Vec<Leaf> = Vec::new();
    let mut i: usize = 0;
    while i < query.clauses.len()
        invariant
            i <= query.clauses.len(),
            numbers == field_numbers(defaults@),
            leaf_views(leaves@) == query_leaves(query@, numbers, i as int),
        decreases query.clauses.len() - i,
    {
        let clause = &query.clauses[i];
        let ghost before = leaf_views(leaves@);
        match clause.field {
            Some(field) => {
                leaves.push(Leaf { field, terms: copy_terms(&clause.terms) });
            },
            None => {
                let base = leaves.len();
                let mut k: usize = 0;
                while k < defaults.len()
                    invariant
                        k <= defaults.len(),
                        numbers == field_numbers(defaults@),
                        leaves.len() == base + k,
                        base == before.len(),
                        forall|j: int| 0 <= j < base ==> (#[trigger] leaves[j])@ == before[j],
                        forall|j: int|
                            base <= j < base + k ==> (#[trigger] leaves[j])@ == (LeafView {
                                field: numbers[j - base],
                                terms: clause@.terms,
                            }),
                    decreases defaults.len() - k,
                {
                    leaves.push(Leaf { field: defaults[k], terms: copy_terms(&clause.terms) });
                    k = k + 1;
                }
            },
        }
        i = i + 1;
    }
    leaves
}

impl Index {
    fn reader_fits(&self, reader: &IndexReader) -> (fits: bool)
        ensures
            fits == reader.fits(self),
    {
        let mut s: usize = 0;
        while s < reader.snapshot.len()
            invariant
                s <= reader.snapshot.len(),
                forall|t: int| 0 <= t < s ==> (#[trigger] reader@[t]) < self.store.len(),
            decreases reader.snapshot.len() - s,
        {
            if reader.snapshot[s] >= self.store.len() {
                return false;
            }
            s = s + 1;
        }
        true
    }

    fn fetch_fields(&self, segment: usize, doc: usize) -> (fields: Vec<StoredField>)
        requires
            self.wf(),
            segment < self.segments().len(),
            doc < self.segments()[segment as int].len(),
        ensures
            stored_field_views(fields@) == named_fields(
                self.schema(),
                self.segments()[segment as int][doc as int].stored,
            ),
    {
        let stored = self.store[segment].stored_fields(doc);
        let ghost values = self.segments()[segment as int][doc as int].stored;
        let mut fields: Vec<StoredField> = Vec::new();
        let mut k: usize = 0;
        while k < stored.len()
            invariant
                self.wf(),
                k <= stored.len(),
                fields.len() == k,
                stored_views(stored@) == values,
                forall|j: int| 0 <= j < values.len() ==> 0 <= (#[trigger] values[j]).field < self.schema@.len(),
                forall|j: int|
                    0 <= j < k ==> (#[trigger] fields[j])@ == named_fields(self.schema(), values)[j],
            decreases stored.len() - k,
        {
            let value = &stored[k];
            assert(values[k as int] == value@);
            let entry = self.schema.field(value.field);
            fields.push(StoredField { name: entry.name.clone(), value: value.value.clone() });
            k = k + 1;
        }
        fields
    }

    /// Answers a query on the snapshot of `reader`: the best `limit`
    /// matching documents, ordered by descending score and, among equal
    /// scores, by ascending segment and document number. A reader whose
    /// snapshot names a segment that the index does not have is refused, and
    /// so is a malformed query.
    pub fn search(&self, reader: &IndexReader, query: &str, limit: usize) -> (r: Result<
        Vec<SearchHit>,
        EngineError,
    >)
        requires
            self.wf(),
            reader.wf(),
        ensures
            !reader.fits(self) ==> r == Err::<Vec<SearchHit>, EngineError>(
                EngineError::CorruptIndex,
            ),
            reader.fits(self) ==> match parsed(self.schema(), query.spec_bytes()) {
                Err(e) => r == Err::<Vec<SearchHit>, EngineError>(EngineError::Parse(e)),
                Ok(clauses) => r is Ok && is_search_result(
                    r->Ok_0@,
                    self.schema(),
                    self.segments(),
                    reader@,
                    clauses,
                    limit as int,
                ),
            },
    {
        if !self.reader_fits(reader) {
            return Err(EngineError::CorruptIndex);
        }
        let parsed_query = match parse_query(&self.schema, query) {
            Err(e) => {
                return Err(EngineError::Parse(e));
            },
            Ok(parsed_query) => parsed_query,
        };
        let defaults = indexed_fields(&self.schema);
        let leaves = expand_query(&parsed_query, &defaults);
        let ghost ids = reader@;
        let ghost snapshot = snapshot_of(self.segments(), ids);
        let ghost wanted = candidates(snapshot, ids, leaf_views(leaves@));
        assert(snapshot_docs(self.store@, ids) =~= snapshot);
        let ranking = evaluate(&self.store, &reader.snapshot, &leaves, limit);
        let mut hits: Vec<SearchHit> = Vec::new();
        let mut i: usize = 0;
        while i < ranking.len()
            invariant
                self.wf(),
                i <= ranking.len(),
                hits.len() == i,
                ids == reader@,
                snapshot == snapshot_of(self.segments(), ids),
                ids_below(ids, self.segments().len() as int),
                is_top_k(ranking@, limit as int, wanted),
                wanted == candidates(snapshot, ids, leaf_views(leaves@)),
                forall|k: int| 0 <= k < i ==> (#[trigger] hits[k]).key() == ranking[k],
                forall|k: int|
                    0 <= k < i ==> stored_field_views((#[trigger] hits[k]).fields@) == named_fields(
                        self.schema(),
                        self.segments()[hits[k].segment as int][hits[k].doc as int].stored,
                    ),
            decreases ranking.len() - i,
        {
            let hit = ranking[i];
            let fields = self.fetch_fields(hit.segment, hit.doc);
            hits.push(SearchHit { score: hit.score, segment: hit.segment, doc: hit.doc, fields });
            i = i + 1;
        }
        assert(hit_keys(hits@) =~= ranking@);
        Ok(hits)
    }
}

} // verus!
