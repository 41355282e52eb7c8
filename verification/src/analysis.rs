//! Document analysis: checks a document against the schema, tokenizes its
//! indexed fields and collects what the index keeps of it.

use crate::document::{Document, EntryView, StoredValue, StoredView, Value, stored_views};
use crate::postings::Slot;
use crate::schema::{FieldView, Schema, SchemaError, has_name};
use crate::tokenizer::{Analyzer, TokenView, token_views};
use vstd::prelude::*;
use vstd::slice::slice_to_vec;
use vstd::string::*;
use vstd::utf8::*;

verus! {

/// One occurrence of a term in a document.
#[derive(Debug, PartialEq, Eq)]
pub struct TermOccurrence {
    pub field: usize,
    pub term: Vec<u8>,
    pub slot: Slot,
}

/// The mathematical value of a [`TermOccurrence`].
pub struct TermOccurrenceView {
    pub field: int,
    pub term: Seq<u8>,
    pub slot: Slot,
}

impl View for TermOccurrence {
    type V = TermOccurrenceView;

    open spec fn view(&self) -> TermOccurrenceView {
        TermOccurrenceView { field: self.field as int, term: self.term@, slot: self.slot }
    }
}

/// The values of a list of occurrences.
pub open spec fn occurrence_views(occurrences: Seq<TermOccurrence>) -> Seq<TermOccurrenceView> {
    Seq::new(occurrences.len(), |i: int| occurrences[i]@)
}

/// What the index keeps of a document: its stored values and the
/// occurrences of its terms, both in the order of the document's entries.
#[derive(Debug, PartialEq, Eq)]
pub struct AnalyzedDoc {
    pub stored: Vec<StoredValue>,
    pub occurrences: Vec<TermOccurrence>,
}

/// The mathematical value of an [`AnalyzedDoc`].
pub struct AnalyzedView {
    pub stored: Seq<StoredView>,
    pub occurrences: Seq<TermOccurrenceView>,
}

impl View for AnalyzedDoc {
    type V = AnalyzedView;

    open spec fn view(&self) -> AnalyzedView {
        AnalyzedView {
            stored: stored_views(self.stored@),
            occurrences: occurrence_views(self.occurrences@),
        }
    }
}

/// The number of the field called `name`.
pub open spec fn field_number(schema: Seq<FieldView>, name: Seq<char>) -> int {
    choose|i: int| 0 <= i < schema.len() && (#[trigger] schema[i]).name == name
}

/// Why an entry is refused, if it is: its field is not in the schema, or
/// its value is no text.
pub open spec fn entry_error(schema: Seq<FieldView>, entry: EntryView) -> Option<SchemaError> {
    if !has_name(schema, entry.name) {
        Some(SchemaError::UnknownField)
    } else if !(entry.value is Text) {
        Some(SchemaError::TypeMismatch)
    } else {
        None
    }
}

/// The error of the first refused entry among the first `n`.
pub open spec fn first_error(schema: Seq<FieldView>, entries: Seq<EntryView>, n: int) -> Option<
    SchemaError,
>
    decreases n,
{
    if n <= 0 {
        None
    } else {
        match first_error(schema, entries, n - 1) {
            Some(e) => Some(e),
            None => entry_error(schema, entries[n - 1]),
        }
    }
}

/// Why a document is refused, if it is: the error of its first refused
/// entry.
pub open spec fn document_error(schema: Seq<FieldView>, entries: Seq<EntryView>) -> Option<
    SchemaError,
> {
    first_error(schema, entries, entries.len() as int)
}

/// The stored value that an entry contributes: its text, if its field is
/// stored.
pub open spec fn entry_stored(schema: Seq<FieldView>, entry: EntryView) -> Seq<StoredView> {
    let field = field_number(schema, entry.name);
    if schema[field].options.stored {
        seq![StoredView { field, value: entry.value->Text_0 }]
    } else {
        seq![]
    }
}

/// The occurrence that a token of entry number `index` stands for.
pub open spec fn token_occurrence(field: int, index: int, token: TokenView) -> TermOccurrenceView {
    TermOccurrenceView {
        field,
        term: encode_utf8(token.text),
        slot: Slot { entry: index as usize, position: token.position as usize },
    }
}

/// The occurrences that entry number `index` contributes: one per token of
/// its text, if its field is indexed.
pub open spec fn entry_occurrences(
    schema: Seq<FieldView>,
    analyzer: Analyzer,
    entry: EntryView,
    index: int,
) -> Seq<TermOccurrenceView> {
    let field = field_number(schema, entry.name);
    if schema[field].options.indexed {
        let tokens = analyzer.tokens(schema[field].options.tokenizer, entry.value->Text_0);
        Seq::new(tokens.len(), |p: int| token_occurrence(field, index, tokens[p]))
    } else {
        seq![]
    }
}

/// What the index keeps of the first `n` entries of a document.
pub open spec fn analyzed_upto(
    schema: Seq<FieldView>,
    analyzer: Analyzer,
    entries: Seq<EntryView>,
    n: int,
) -> AnalyzedView
    decreases n,
{
    if n <= 0 {
        AnalyzedView { stored: seq![], occurrences: seq![] }
    } else {
        let earlier = analyzed_upto(schema, analyzer, entries, n - 1);
        AnalyzedView {
            stored: earlier.stored + entry_stored(schema, entries[n - 1]),
            occurrences: earlier.occurrences + entry_occurrences(
                schema,
                analyzer,
                entries[n - 1],
                n - 1,
            ),
        }
    }
}

/// What the index keeps of a document.
pub open spec fn analyzed(schema: Seq<FieldView>, analyzer: Analyzer, entries: Seq<EntryView>) -> AnalyzedView {
    analyzed_upto(schema, analyzer, entries, entries.len() as int)
}

/// Every stored value of the document belongs to one of the first `fields`
/// fields.
pub open spec fn stored_fit(doc: AnalyzedView, fields: int) -> bool {
    forall|k: int| 0 <= k < doc.stored.len() ==> 0 <= (#[trigger] doc.stored[k]).field < fields
}

/// Every stored value of every document belongs to one of the first
/// `fields` fields.
pub open spec fn docs_fit(docs: Seq<AnalyzedView>, fields: int) -> bool {
    forall|d: int| 0 <= d < docs.len() ==> stored_fit(#[trigger] docs[d], fields)
}

/// The analyzer can run the tokenizer of every field.
pub open spec fn analyzer_covers(schema: Seq<FieldView>, analyzer: Analyzer) -> bool {
    forall|i: int| 0 <= i < schema.len() ==> analyzer.supports((#[trigger] schema[i]).options.tokenizer)
}

/// Some field of the schema is cut by the dictionary.
pub fn needs_dictionary(schema: &Schema) -> (needed: bool)
    ensures
        needed == exists|i: int|
            0 <= i < schema@.len() && (#[trigger] schema@[i]).options.tokenizer
                == crate::tokenizer::TokenizerKind::Jieba,
{
    let mut i: usize = 0;
    while i < schema.len()
        invariant
            i <= schema@.len(),
            forall|k: int|
                0 <= k < i ==> (#[trigger] schema@[k]).options.tokenizer
                    != crate::tokenizer::TokenizerKind::Jieba,
        decreases schema@.len() - i,
    {
        if schema.field(i).options.tokenizer == crate::tokenizer::TokenizerKind::Jieba {
            return true;
        }
        i = i + 1;
    }
    false
}

/// Checks `doc` against the schema and analyzes it. A document with an
/// unknown field or a value that is no text is refused with the error of the
/// first such entry.
pub fn analyze_document(schema: &Schema, analyzer: &Analyzer, doc: &Document) -> (r: Result<
    AnalyzedDoc,
    SchemaError,
>)
    requires
        schema.wf(),
        analyzer_covers(schema@, *analyzer),
    ensures
        match r {
            Ok(kept) => document_error(schema@, doc@) is None && kept@ == analyzed(
                schema@,
                *analyzer,
                doc@,
            ) && stored_fit(kept@, schema@.len() as int),
            Err(e) => document_error(schema@, doc@) == Some(e),
        },
{
    let mut stored: Vec<StoredValue> = Vec::new();
    let mut occurrences: Vec<TermOccurrence> = Vec::new();
    let mut i: usize = 0;
    while i < doc.entries.len()
        invariant
            i <= doc.entries.len(),
            schema.wf(),
            analyzer_covers(schema@, *analyzer),
            first_error(schema@, doc@, i as int) is None,
            forall|k: int| 0 <= k < stored.len() ==> (#[trigger] stored[k]).field < schema@.len(),
            stored_views(stored@) == analyzed_upto(schema@, *analyzer, doc@, i as int).stored,
            occurrence_views(occurrences@) == analyzed_upto(
                schema@,
                *analyzer,
                doc@,
                i as int,
            ).occurrences,
        decreases doc.entries.len() - i,
    {
        let entry = &doc.entries[i];
        let field = match schema.get_field(entry.name.as_str()) {
            Some(field) => field,
            None => {
                proof {
                    lemma_error_stays(schema@, doc@, i + 1, doc@.len() as int);
                }
                return Err(SchemaError::UnknownField);
            },
        };
        let text = match &entry.value {
            Value::Text(text) => text,
            Value::Integer(_) => {
                proof {
                    lemma_error_stays(schema@, doc@, i + 1, doc@.len() as int);
                }
                return Err(SchemaError::TypeMismatch);
            },
        };
        let options = schema.field(field).options;
        let ghost occurrences_before = occurrence_views(occurrences@);
        if options.stored {
            stored.push(StoredValue { field, value: text.clone() });
        }
        if options.indexed {
            let tokens = analyzer.tokenize(options.tokenizer, text.as_str());
            let ghost token_values = analyzer.tokens(options.tokenizer, text@);
            let base = occurrences.len();
            let mut p: usize = 0;
            while p < tokens.len()
                invariant
                    p <= tokens.len(),
                    token_views(tokens@) == token_values,
                    occurrences.len() == base + p,
                    base == occurrences_before.len(),
                    forall|k: int|
                        0 <= k < base ==> (#[trigger] occurrences@[k])@ == occurrences_before[k],
                    forall|k: int|
                        base <= k < base + p ==> (#[trigger] occurrences@[k])@ == token_occurrence(
                            field as int,
                            i as int,
                            token_values[k - base],
                        ),
                decreases tokens.len() - p,
            {
                let token = &tokens[p];
                let term = slice_to_vec(token.text.as_str().as_bytes());
                occurrences.push(
                    TermOccurrence {
                        field,
                        term,
                        slot: Slot { entry: i, position: token.position },
                    },
                );
                p = p + 1;
            }
        }
        i = i + 1;
    }
    Ok(AnalyzedDoc { stored, occurrences })
}

proof fn lemma_accepted_entries(schema: Seq<FieldView>, entries: Seq<EntryView>, n: int, e: int)
    requires
        0 <= e < n,
        first_error(schema, entries, n) is None,
    ensures
        entry_error(schema, entries[e]) is None,
    decreases n,
{
    if e < n - 1 {
        lemma_accepted_entries(schema, entries, n - 1, e);
    }
}

proof fn lemma_entry_occurrences_kept(
    schema: Seq<FieldView>,
    analyzer: Analyzer,
    entries: Seq<EntryView>,
    n: int,
    e: int,
    p: int,
) -> (k: int)
    requires
        0 <= e < n,
        0 <= p < entry_occurrences(schema, analyzer, entries[e], e).len(),
    ensures
        0 <= k < analyzed_upto(schema, analyzer, entries, n).occurrences.len(),
        analyzed_upto(schema, analyzer, entries, n).occurrences[k] == entry_occurrences(
            schema,
            analyzer,
            entries[e],
            e,
        )[p],
    decreases n,
{
    let earlier = analyzed_upto(schema, analyzer, entries, n - 1).occurrences;
    if e == n - 1 {
        earlier.len() + p
    } else {
        lemma_entry_occurrences_kept(schema, analyzer, entries, n - 1, e, p)
    }
}

/// Every token of an indexed entry of an accepted document is kept as an
/// occurrence of its term, at the entry's number and the token's position.
pub proof fn lemma_token_is_kept(
    schema: Seq<FieldView>,
    analyzer: Analyzer,
    entries: Seq<EntryView>,
    e: int,
    p: int,
) -> (k: int)
    requires
        document_error(schema, entries) is None,
        0 <= e < entries.len(),
        schema[field_number(schema, entries[e].name)].options.indexed,
        0 <= p < analyzer.tokens(
            schema[field_number(schema, entries[e].name)].options.tokenizer,
            entries[e].value->Text_0,
        ).len(),
    ensures
        0 <= k < analyzed(schema, analyzer, entries).occurrences.len(),
        entries[e].value is Text,
        0 <= field_number(schema, entries[e].name) < schema.len(),
        analyzed(schema, analyzer, entries).occurrences[k] == token_occurrence(
            field_number(schema, entries[e].name),
            e,
            analyzer.tokens(
                schema[field_number(schema, entries[e].name)].options.tokenizer,
                entries[e].value->Text_0,
            )[p],
        ),
{
    lemma_accepted_entries(schema, entries, entries.len() as int, e);
    lemma_entry_occurrences_kept(schema, analyzer, entries, entries.len() as int, e, p)
}

/// Token `position` of entry `entry` of the document is the term `term` of
/// the indexed field `field`.
pub open spec fn token_stands(
    schema: Seq<FieldView>,
    analyzer: Analyzer,
    entries: Seq<EntryView>,
    field: int,
    term: Seq<u8>,
    entry: int,
    position: int,
) -> bool {
    &&& 0 <= entry < entries.len()
    &&& field_number(schema, entries[entry].name) == field
    &&& schema[field].options.indexed
    &&& 0 <= position < analyzer.tokens(
        schema[field].options.tokenizer,
        entries[entry].value->Text_0,
    ).len()
    &&& encode_utf8(
        analyzer.tokens(schema[field].options.tokenizer, entries[entry].value->Text_0)[position].text,
    ) == term
}

/// The document and the token streams of its entries are no longer than a
/// machine word can count.
pub open spec fn document_fits(
    schema: Seq<FieldView>,
    analyzer: Analyzer,
    entries: Seq<EntryView>,
) -> bool {
    &&& entries.len() <= usize::MAX
    &&& forall|e: int|
        0 <= e < entries.len() ==> (#[trigger] analyzer.tokens(
            schema[field_number(schema, entries[e].name)].options.tokenizer,
            entries[e].value->Text_0,
        )).len() <= usize::MAX
}

proof fn lemma_kept_is_token(
    schema: Seq<FieldView>,
    analyzer: Analyzer,
    entries: Seq<EntryView>,
    n: int,
    k: int,
) -> (place: (int, int))
    requires
        0 <= n <= entries.len(),
        0 <= k < analyzed_upto(schema, analyzer, entries, n).occurrences.len(),
    ensures
        0 <= place.0 < n,
        schema[field_number(schema, entries[place.0].name)].options.indexed,
        0 <= place.1 < analyzer.tokens(
            schema[field_number(schema, entries[place.0].name)].options.tokenizer,
            entries[place.0].value->Text_0,
        ).len(),
        analyzed_upto(schema, analyzer, entries, n).occurrences[k] == token_occurrence(
            field_number(schema, entries[place.0].name),
            place.0,
            analyzer.tokens(
                schema[field_number(schema, entries[place.0].name)].options.tokenizer,
                entries[place.0].value->Text_0,
            )[place.1],
        ),
    decreases n,
{
    let earlier = analyzed_upto(schema, analyzer, entries, n - 1).occurrences;
    if k < earlier.len() {
        lemma_kept_is_token(schema, analyzer, entries, n - 1, k)
    } else {
        (n - 1, k - earlier.len())
    }
}

/// The occurrences kept of an accepted document are its tokens: a term
/// stands at a place of the document exactly when the token at that
/// position of that entry is the term, in an indexed field.
pub proof fn lemma_occurrences_are_tokens(
    schema: Seq<FieldView>,
    analyzer: Analyzer,
    entries: Seq<EntryView>,
    field: int,
    term: Seq<u8>,
    entry: int,
    position: int,
)
    requires
        document_error(schema, entries) is None,
        document_fits(schema, analyzer, entries),
    ensures
        (exists|k: int|
            0 <= k < analyzed(schema, analyzer, entries).occurrences.len() && {
                let found = #[trigger] analyzed(schema, analyzer, entries).occurrences[k];
                &&& found.field == field
                &&& found.term == term
                &&& found.slot.entry == entry
                &&& found.slot.position == position
            }) <==> token_stands(schema, analyzer, entries, field, term, entry, position),
{
    let kept = analyzed(schema, analyzer, entries).occurrences;
    if token_stands(schema, analyzer, entries, field, term, entry, position) {
        let k = lemma_token_is_kept(schema, analyzer, entries, entry, position);
        let tokens = analyzer.tokens(schema[field].options.tokenizer, entries[entry].value->Text_0);
        assert(tokens[position].position == position);
        assert(kept[k].slot.entry == entry);
    }
    if exists|k: int|
        0 <= k < kept.len() && {
            let found = #[trigger] kept[k];
            &&& found.field == field
            &&& found.term == term
            &&& found.slot.entry == entry
            &&& found.slot.position == position
        } {
        let k = choose|k: int|
            0 <= k < kept.len() && {
                let found = #[trigger] kept[k];
                &&& found.field == field
                &&& found.term == term
                &&& found.slot.entry == entry
                &&& found.slot.position == position
            };
        let place = lemma_kept_is_token(schema, analyzer, entries, entries.len() as int, k);
        let tokens = analyzer.tokens(
            schema[field_number(schema, entries[place.0].name)].options.tokenizer,
            entries[place.0].value->Text_0,
        );
        assert(tokens[place.1].position == place.1);
        assert(place.0 == entry);
        assert(place.1 == position);
    }
}

/// Once an entry is refused, the document's error is fixed.
proof fn lemma_error_stays(schema: Seq<FieldView>, entries: Seq<EntryView>, n: int, m: int)
    requires
        0 <= n <= m,
        first_error(schema, entries, n) is Some,
    ensures
        first_error(schema, entries, m) == first_error(schema, entries, n),
    decreases m - n,
{
    if n < m {
        lemma_error_stays(schema, entries, n, m - 1);
    }
}

} // verus!
