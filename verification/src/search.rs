//! Ready-made operations on an index with a `title` and a `body` field:
//! setting it up, writing a document, and searching.

use crate::analysis::{AnalyzedView, analyzed, document_error, first_error};
use crate::document::{Document, EntryView, ValueView};
use crate::index::{
    EngineError, Index, SearchHit, analyzed_batch, batch_error, document_views, is_search_result,
};
use crate::query::parsed;
use crate::schema::{FieldOptions, FieldType, FieldView, Schema, SchemaBuilder, SchemaError};
use crate::tokenizer::TokenizerKind;
use vstd::prelude::*;
use vstd::string::*;

verus! {

/// The number of results that [`search_index`] returns at most.
pub const DEFAULT_LIMIT: usize = 10;

/// The number of the `title` field in the title-and-body schema.
pub const TITLE: usize = 0;

/// The number of the `body` field in the title-and-body schema.
pub const BODY: usize = 1;

/// The options of a text field that is stored and indexed.
pub open spec fn stored_text(tokenizer: TokenizerKind) -> FieldOptions {
    FieldOptions { stored: true, indexed: true, tokenizer }
}

/// The fields of the title-and-body schema: `title`, then `body`, both
/// stored and indexed with the given tokenizer.
pub open spec fn title_body_fields(tokenizer: TokenizerKind) -> Seq<FieldView> {
    seq![
        FieldView { name: "title"@, field_type: FieldType::Text, options: stored_text(tokenizer) },
        FieldView { name: "body"@, field_type: FieldType::Text, options: stored_text(tokenizer) },
    ]
}

/// The document with the given title and body.
pub open spec fn title_body_entries(title: Seq<char>, body: Seq<char>) -> Seq<EntryView> {
    seq![
        EntryView { name: "title"@, value: ValueView::Text(title) },
        EntryView { name: "body"@, value: ValueView::Text(body) },
    ]
}

proof fn lemma_names_differ()
    ensures
        "title"@ != "body"@,
{
    reveal_strlit("title");
    reveal_strlit("body");
    assert("title"@.len() == 5);
}

/// A document with the given title and body fits the title-and-body
/// schema.
pub proof fn lemma_title_body_fits(tokenizer: TokenizerKind, title: Seq<char>, body: Seq<char>)
    ensures
        document_error(title_body_fields(tokenizer), title_body_entries(title, body)) is None,
{
    let schema = title_body_fields(tokenizer);
    let entries = title_body_entries(title, body);
    assert(first_error(schema, entries, 0) is None);
    assert(first_error(schema, entries, 1) is None);
}

/// Builds the title-and-body schema.
pub fn title_body_schema(tokenizer: TokenizerKind) -> (schema: Schema)
    ensures
        schema.wf(),
        schema@ == title_body_fields(tokenizer),
{
    let options = FieldOptions { stored: true, indexed: true, tokenizer };
    let mut builder = SchemaBuilder::new();
    proof {
        lemma_names_differ();
    }
    let title = builder.define_field("title", FieldType::Text, options);
    let body = builder.define_field("body", FieldType::Text, options);
    builder.build()
}

/// Builds the document with the given title and body.
pub fn title_body_document(title: &str, body: &str) -> (doc: Document)
    ensures
        doc@ == title_body_entries(title@, body@),
{
    let mut doc = Document::new();
    doc.add_text("title", title);
    doc.add_text("body", body);
    doc
}

/// Creates an index or opens the one that exists. Without an existing index
/// a new one is created with the given schema; without a schema either,
/// there is nothing to open and the call fails as an I/O error. An existing
/// index is handed back as it is; a schema given along with it has to be
/// the schema of the index.
pub fn create_or_open(existing: Option<Index>, schema: Option<Schema>) -> (r: Result<
    Index,
    EngineError,
>)
    requires
        existing is Some ==> existing->0.wf(),
        schema is Some ==> schema->0.wf(),
    ensures
        match existing {
            Some(index) => if schema is Some && schema->0@ != index.schema() {
                r == Err::<Index, EngineError>(EngineError::Schema(SchemaError::TypeMismatch))
            } else {
                r == Ok::<Index, EngineError>(index)
            },
            None => match schema {
                Some(wanted) => {
                    &&& r is Ok
                    &&& r->Ok_0.wf()
                    &&& r->Ok_0.schema() == wanted@
                    &&& r->Ok_0.segments() == Seq::<Seq<AnalyzedView>>::empty()
                    &&& r->Ok_0.committed() == Seq::<usize>::empty()
                    &&& r->Ok_0.pending() == Seq::<AnalyzedView>::empty()
                    &&& !r->Ok_0.locked()
                },
                None => r == Err::<Index, EngineError>(EngineError::Io),
            },
        },
{
    match existing {
        Some(index) => {
            let matches = match &schema {
                Some(wanted) => wanted.same_fields(index.get_schema()),
                None => true,
            };
            if matches {
                Ok(index)
            } else {
                Err(EngineError::Schema(SchemaError::TypeMismatch))
            }
        },
        None => match schema {
            Some(wanted) => Ok(Index::create(wanted)),
            None => Err(EngineError::Io),
        },
    }
}

/// Sets up an index with the title-and-body schema cut by the dictionary:
/// a new empty one, or the one that exists already, whose schema has to be
/// that schema. Along with the index come the numbers of its `title` and
/// its `body` field. An existing index with another schema is refused.
pub fn setup_index(existing: Option<Index>) -> (r: Result<(Index, usize, usize), EngineError>)
    requires
        existing is Some ==> existing->0.wf(),
    ensures
        match existing {
            Some(index) => if index.schema() == title_body_fields(TokenizerKind::Jieba) {
                r == Ok::<(Index, usize, usize), EngineError>((index, TITLE, BODY))
            } else {
                r == Err::<(Index, usize, usize), EngineError>(
                    EngineError::Schema(SchemaError::TypeMismatch),
                )
            },
            None => {
                &&& r is Ok
                &&& r->Ok_0.0.segments() == Seq::<Seq<AnalyzedView>>::empty()
                &&& r->Ok_0.0.committed() == Seq::<usize>::empty()
                &&& r->Ok_0.0.pending() == Seq::<AnalyzedView>::empty()
                &&& !r->Ok_0.0.locked()
            },
        },
        r is Ok ==> {
            let (index, title, body) = r->Ok_0;
            &&& index.wf()
            &&& index.schema() == title_body_fields(TokenizerKind::Jieba)
            &&& title < index.schema().len()
            &&& body < index.schema().len()
            &&& index.schema()[title as int].name == "title"@
            &&& index.schema()[body as int].name == "body"@
        },
{
    match create_or_open(existing, Some(title_body_schema(TokenizerKind::Jieba))) {
        Ok(index) => Ok((index, TITLE, BODY)),
        Err(e) => Err(e),
    }
}

/// Adds one document with the given title and body to the index and
/// commits it as a segment of its own. Fails, and leaves the committed
/// segments as they were, when another writer holds the lock or the
/// index has no text fields `title` and `body`.
pub fn write_index(index: &mut Index, title_str: &str, body_str: &str) -> (r: Result<
    (),
    EngineError,
>)
    requires
        old(index).wf(),
    ensures
        final(index).wf(),
        final(index).schema() == old(index).schema(),
        final(index).analyzer() == old(index).analyzer(),
        final(index).locked() == old(index).locked(),
        final(index).pending() == old(index).pending(),
        match r {
            Ok(()) => {
                &&& !old(index).locked()
                &&& document_error(old(index).schema(), title_body_entries(title_str@, body_str@))
                    is None
                &&& final(index).segments() == old(index).segments().push(
                    seq![
                        analyzed(
                            old(index).schema(),
                            old(index).analyzer(),
                            title_body_entries(title_str@, body_str@),
                        ),
                    ],
                )
                &&& final(index).committed() == old(index).committed().push(
                    old(index).segments().len() as usize,
                )
            },
            Err(e) => {
                &&& final(index).segments() == old(index).segments()
                &&& final(index).committed() == old(index).committed()
                &&& if old(index).locked() {
                    e == EngineError::LockContention
                } else {
                    match document_error(
                        old(index).schema(),
                        title_body_entries(title_str@, body_str@),
                    ) {
                        Some(refused) => e == EngineError::Schema(refused),
                        None => false,
                    }
                }
            },
        },
{
    let docs = vec![title_body_document(title_str, body_str)];
    proof {
        let views = document_views(docs@);
        let entries = title_body_entries(title_str@, body_str@);
        assert(batch_error(old(index).schema(), views, 0) is None);
        assert(analyzed_batch(old(index).schema(), old(index).analyzer(), views) =~= seq![
            analyzed(old(index).schema(), old(index).analyzer(), entries),
        ]);
    }
    match index.write_batch(&docs) {
        Ok(_) => Ok(()),
        Err(e) => Err(e),
    }
}

/// A new index with the title-and-body schema, split at white space, that
/// holds one committed sample document.
pub fn create_index() -> (index: Index)
    ensures
        index.wf(),
        !index.locked(),
        index.schema() == title_body_fields(TokenizerKind::Whitespace),
        index.committed() == seq![0usize],
        index.segments() == seq![
            seq![
                analyzed(
                    index.schema(),
                    index.analyzer(),
                    title_body_entries(
                        "Tantivy 中文搜索"@,
                        "这是一个基于 Rust 的全文本搜索引擎"@,
                    ),
                ),
            ],
        ],
{
    let mut index = Index::create(title_body_schema(TokenizerKind::Whitespace));
    proof {
        lemma_title_body_fits(
            TokenizerKind::Whitespace,
            "Tantivy 中文搜索"@,
            "这是一个基于 Rust 的全文本搜索引擎"@,
        );
    }
    let _ = write_index(&mut index, "Tantivy 中文搜索", "这是一个基于 Rust 的全文本搜索引擎");
    index
}

/// Searches the committed segments of the index and returns the best
/// `DEFAULT_LIMIT` results. A term without a field name is looked for in
/// every indexed field.
pub fn search_index(index: &Index, query_str: &str) -> (r: Result<Vec<SearchHit>, EngineError>)
    requires
        index.wf(),
    ensures
        match parsed(index.schema(), query_str.spec_bytes()) {
            Err(e) => r == Err::<Vec<SearchHit>, EngineError>(EngineError::Parse(e)),
            Ok(clauses) => r is Ok && is_search_result(
                r->Ok_0@,
                index.schema(),
                index.segments(),
                index.committed(),
                clauses,
                DEFAULT_LIMIT as int,
            ),
        },
{
    let mut reader = index.reader();
    reader.reload(index);
    proof {
        index.lemma_committed_listed();
    }
    index.search(&reader, query_str, DEFAULT_LIMIT)
}

} // verus!
