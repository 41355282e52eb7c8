use search_core::analysis::{analyze_document, needs_dictionary, AnalyzedDoc, TermOccurrence};
use search_core::document::{Document, StoredValue, Value};
use search_core::index::{expand_query, indexed_fields, EngineError, Index};
use search_core::matching::{
    count_phrase, doc_slots, leaf_matches, phrase_starts_here, slot_listed, Leaf, Match,
};
use search_core::postings::{
    locate, order_bytes, order_keys, record, KeyOrder, Posting, Slot, TermEntry,
};
use search_core::query::parse_query;
use search_core::ranking::{ranks_before, Collector, Hit};
use search_core::schema::{
    bytes_equal, text_equal, FieldOptions, FieldType, SchemaBuilder, SchemaError,
};
use search_core::scoring::evaluate;
use search_core::search::{create_or_open, title_body_document, title_body_schema};
use search_core::segment::Segment;
use search_core::text::slice_text;
use search_core::tokenizer::{Analyzer, TokenizerKind};

fn slot(entry: usize, position: usize) -> Slot {
    Slot { entry, position }
}

fn analyzed(title: &str, body: &str) -> AnalyzedDoc {
    let schema = title_body_schema(TokenizerKind::Whitespace);
    let analyzer = Analyzer::new(false);
    analyze_document(&schema, &analyzer, &title_body_document(title, body)).unwrap()
}

fn segment_of(docs: &[(&str, &str)]) -> Segment {
    let mut segment = Segment::new();
    for (title, body) in docs {
        segment.add(analyzed(title, body));
    }
    segment
}

#[test]
fn slice_text_copies_between_byte_offsets() {
    assert_eq!(slice_text("中文 search", 0, 6), "中文");
    assert_eq!(slice_text("中文 search", 7, 13), "search");
    assert_eq!(slice_text("中文 search", 3, 3), "");
    assert_eq!(slice_text("", 0, 0), "");
}

#[test]
fn texts_and_bytes_compare_by_content() {
    assert!(bytes_equal(b"abc", b"abc"));
    assert!(!bytes_equal(b"abc", b"abd"));
    assert!(!bytes_equal(b"abc", b"ab"));
    assert!(bytes_equal(b"", b""));
    assert!(text_equal("标题", "标题"));
    assert!(!text_equal("title", "Title"));
}

#[test]
fn keys_are_ordered_by_field_then_bytes() {
    assert_eq!(order_bytes(b"a", b"b"), KeyOrder::Before);
    assert_eq!(order_bytes(b"b", b"a"), KeyOrder::After);
    assert_eq!(order_bytes(b"ab", b"ab"), KeyOrder::Same);
    assert_eq!(order_bytes(b"ab", b"abc"), KeyOrder::Before);
    assert_eq!(order_bytes(b"abc", b"ab"), KeyOrder::After);
    assert_eq!(order_bytes(b"", b""), KeyOrder::Same);
    assert_eq!(order_bytes(b"", b"\0"), KeyOrder::Before);
    assert_eq!(order_bytes(&[0x7f], &[0x80]), KeyOrder::Before);
    assert_eq!(order_keys(0, b"z", 1, b"a"), KeyOrder::Before);
    assert_eq!(order_keys(1, b"a", 0, b"z"), KeyOrder::After);
    assert_eq!(order_keys(1, b"a", 1, b"b"), KeyOrder::Before);
    assert_eq!(order_keys(2, b"x", 2, b"x"), KeyOrder::Same);
}

#[test]
fn record_keeps_the_dictionary_sorted_and_groups_by_document() {
    let mut entries: Vec<TermEntry> = Vec::new();
    record(&mut entries, 1, b"pear", 0, slot(1, 0));
    record(&mut entries, 1, b"apple", 0, slot(1, 1));
    record(&mut entries, 0, b"zebra", 0, slot(0, 0));
    record(&mut entries, 1, b"apple", 0, slot(1, 2));
    record(&mut entries, 1, b"apple", 2, slot(1, 0));
    let keys: Vec<(usize, &[u8])> = entries.iter().map(|e| (e.field, e.term.as_slice())).collect();
    assert_eq!(keys, vec![(0, &b"zebra"[..]), (1, &b"apple"[..]), (1, &b"pear"[..])]);
    assert_eq!(
        entries[1].postings,
        vec![
            Posting { doc: 0, slots: vec![slot(1, 1), slot(1, 2)] },
            Posting { doc: 2, slots: vec![slot(1, 0)] },
        ]
    );
    assert_eq!(locate(&entries, 1, b"apple"), (1, true));
    assert_eq!(locate(&entries, 1, b"banana"), (2, false));
    assert_eq!(locate(&entries, 0, b"a"), (0, false));
    assert_eq!(locate(&entries, 2, b"a"), (3, false));
    assert_eq!(locate(&Vec::new(), 0, b"a"), (0, false));
}

#[test]
fn analysis_keeps_stored_values_and_term_occurrences() {
    let kept = analyzed("The Sea", "old man");
    assert_eq!(
        kept.stored,
        vec![
            StoredValue { field: 0, value: "The Sea".to_string() },
            StoredValue { field: 1, value: "old man".to_string() },
        ]
    );
    assert_eq!(
        kept.occurrences,
        vec![
            TermOccurrence { field: 0, term: b"The".to_vec(), slot: slot(0, 0) },
            TermOccurrence { field: 0, term: b"Sea".to_vec(), slot: slot(0, 1) },
            TermOccurrence { field: 1, term: b"old".to_vec(), slot: slot(1, 0) },
            TermOccurrence { field: 1, term: b"man".to_vec(), slot: slot(1, 1) },
        ]
    );
}

#[test]
fn analysis_reports_the_first_refused_entry() {
    let schema = title_body_schema(TokenizerKind::Whitespace);
    let analyzer = Analyzer::new(false);
    let mut document = Document::new();
    document.add_integer("title", 1);
    document.add_text("nowhere", "x");
    assert_eq!(document.entries[0].value, Value::Integer(1));
    assert_eq!(
        analyze_document(&schema, &analyzer, &document),
        Err(SchemaError::TypeMismatch)
    );
    let mut document = Document::new();
    document.add_text("nowhere", "x");
    document.add_integer("title", 1);
    assert_eq!(
        analyze_document(&schema, &analyzer, &document),
        Err(SchemaError::UnknownField)
    );
    assert_eq!(
        analyze_document(&schema, &analyzer, &Document::new()),
        Ok(AnalyzedDoc { stored: Vec::new(), occurrences: Vec::new() })
    );
}

#[test]
fn the_dictionary_is_needed_for_jieba_fields_only() {
    assert!(needs_dictionary(&title_body_schema(TokenizerKind::Jieba)));
    assert!(!needs_dictionary(&title_body_schema(TokenizerKind::Whitespace)));
    assert!(!needs_dictionary(&title_body_schema(TokenizerKind::Raw)));
    assert!(!needs_dictionary(&SchemaBuilder::new().build()));
}

#[test]
fn a_segment_lists_every_term_with_its_places() {
    let segment = segment_of(&[("t", "b a b"), ("t", "c"), ("t", "a")]);
    assert_eq!(segment.doc_count(), 3);
    assert_eq!(
        segment.find_postings(1, b"a"),
        Some(&vec![
            Posting { doc: 0, slots: vec![slot(1, 1)] },
            Posting { doc: 2, slots: vec![slot(1, 0)] },
        ])
    );
    assert_eq!(
        segment.find_postings(1, b"b"),
        Some(&vec![Posting { doc: 0, slots: vec![slot(1, 0), slot(1, 2)] }])
    );
    let terms: Vec<(usize, &[u8])> =
        segment.dictionary().iter().map(|e| (e.field, e.term.as_slice())).collect();
    assert_eq!(terms, vec![(0, &b"t"[..]), (1, &b"a"[..]), (1, &b"b"[..]), (1, &b"c"[..])]);
    assert_eq!(segment.find_postings(0, b"a"), None);
    assert_eq!(segment.find_postings(1, b"d"), None);
    assert_eq!(
        segment.stored_fields(1),
        &vec![
            StoredValue { field: 0, value: "t".to_string() },
            StoredValue { field: 1, value: "c".to_string() },
        ]
    );
    assert!(segment.fields_below(2));
    assert!(!segment.fields_below(1));
    assert!(Segment::new().fields_below(0));
}

#[test]
fn slots_are_found_by_document_and_place() {
    let postings = vec![
        Posting { doc: 1, slots: vec![slot(0, 0), slot(2, 5)] },
        Posting { doc: 4, slots: vec![slot(1, 1)] },
    ];
    assert_eq!(doc_slots(&postings, 1), Some(&vec![slot(0, 0), slot(2, 5)]));
    assert_eq!(doc_slots(&postings, 4), Some(&vec![slot(1, 1)]));
    assert_eq!(doc_slots(&postings, 0), None);
    assert_eq!(doc_slots(&postings, 2), None);
    assert_eq!(doc_slots(&postings, 5), None);
    let slots = vec![slot(0, 0), slot(2, 5)];
    assert!(slot_listed(&slots, 2, 3, 2));
    assert!(slot_listed(&slots, 0, 0, 0));
    assert!(!slot_listed(&slots, 2, 4, 2));
    assert!(!slot_listed(&slots, 1, 3, 2));
    assert!(!slot_listed(&slots, 0, usize::MAX, 1));
}

#[test]
fn leaves_match_documents_with_their_frequency() {
    let segment = segment_of(&[("t", "a b a b"), ("t", "b"), ("t", "b a")]);
    let term = Leaf { field: 1, terms: vec![b"a".to_vec()] };
    assert_eq!(
        leaf_matches(&segment, &term),
        vec![Match { doc: 0, tf: 2 }, Match { doc: 2, tf: 1 }]
    );
    let phrase = Leaf { field: 1, terms: vec![b"a".to_vec(), b"b".to_vec()] };
    assert_eq!(leaf_matches(&segment, &phrase), vec![Match { doc: 0, tf: 2 }]);
    assert!(phrase_starts_here(&segment, &phrase, 0, slot(1, 0)));
    assert!(phrase_starts_here(&segment, &phrase, 0, slot(1, 2)));
    assert!(!phrase_starts_here(&segment, &phrase, 0, slot(1, 1)));
    assert!(!phrase_starts_here(&segment, &phrase, 2, slot(1, 1)));
    assert_eq!(count_phrase(&segment, &phrase, 0, &vec![slot(1, 0), slot(1, 1), slot(1, 2)]), 2);
    let nothing = Leaf { field: 1, terms: Vec::new() };
    assert!(leaf_matches(&segment, &nothing).is_empty());
    let absent = Leaf { field: 0, terms: vec![b"a".to_vec()] };
    assert!(leaf_matches(&segment, &absent).is_empty());
}

#[test]
fn hits_rank_by_score_then_segment_then_document() {
    let best = Hit { score: 9, segment: 5, doc: 5 };
    let early = Hit { score: 3, segment: 0, doc: 7 };
    let late = Hit { score: 3, segment: 1, doc: 0 };
    let later = Hit { score: 3, segment: 1, doc: 1 };
    assert!(ranks_before(best, early));
    assert!(!ranks_before(early, best));
    assert!(ranks_before(early, late));
    assert!(ranks_before(late, later));
    assert!(!ranks_before(later, late));
    assert!(!ranks_before(late, late));
}

#[test]
fn the_collector_keeps_the_best_hits_in_rank_order() {
    let hits = [
        Hit { score: 3, segment: 1, doc: 0 },
        Hit { score: 9, segment: 5, doc: 5 },
        Hit { score: 3, segment: 0, doc: 7 },
        Hit { score: 1, segment: 0, doc: 0 },
        Hit { score: 3, segment: 1, doc: 1 },
    ];
    let mut collector = Collector::new(3);
    for hit in hits {
        collector.offer(hit);
    }
    assert_eq!(collector.into_hits(), vec![hits[1], hits[2], hits[0]]);
    let mut none = Collector::new(0);
    none.offer(hits[0]);
    assert!(none.into_hits().is_empty());
    let mut all = Collector::new(10);
    for hit in hits {
        all.offer(hit);
    }
    assert_eq!(all.into_hits(), vec![hits[1], hits[2], hits[0], hits[4], hits[3]]);
}

#[test]
fn evaluate_ranks_the_documents_of_the_listed_segments() {
    let store = vec![
        segment_of(&[("t", "a"), ("t", "b")]),
        segment_of(&[("t", "never listed a a a")]),
        segment_of(&[("t", "a a")]),
    ];
    let leaves = vec![Leaf { field: 1, terms: vec![b"a".to_vec()] }];
    assert_eq!(
        evaluate(&store, &vec![0, 2], &leaves, 10),
        vec![Hit { score: 4, segment: 2, doc: 0 }, Hit { score: 2, segment: 0, doc: 0 }]
    );
    assert!(evaluate(&store, &Vec::new(), &leaves, 10).is_empty());
    assert!(evaluate(&store, &vec![0, 2], &Vec::new(), 10).is_empty());
}

#[test]
fn a_clause_without_a_field_is_looked_for_in_every_indexed_field() {
    let mut builder = SchemaBuilder::new();
    let indexed = FieldOptions { stored: true, indexed: true, tokenizer: TokenizerKind::Whitespace };
    let kept = FieldOptions { stored: true, indexed: false, tokenizer: TokenizerKind::Raw };
    builder.define_field("title", FieldType::Text, indexed).unwrap();
    builder.define_field("note", FieldType::Text, kept).unwrap();
    builder.define_field("body", FieldType::Text, indexed).unwrap();
    let schema = builder.build();
    let defaults = indexed_fields(&schema);
    assert_eq!(defaults, vec![0, 2]);
    let query = parse_query(&schema, "sea note:\"old man\"").unwrap();
    assert_eq!(
        expand_query(&query, &defaults),
        vec![
            Leaf { field: 0, terms: vec![b"sea".to_vec()] },
            Leaf { field: 2, terms: vec![b"sea".to_vec()] },
            Leaf { field: 1, terms: vec![b"old".to_vec(), b"man".to_vec()] },
        ]
    );
    assert_eq!(schema.field(1).name, "note");
    assert_eq!(schema.field(1).options, kept);
    assert_eq!(schema.field(2).field_type, FieldType::Text);
}

#[test]
fn an_index_opens_from_its_parts() {
    let store = vec![segment_of(&[("first", "a")]), segment_of(&[("orphan", "a")])];
    let index = Index::open(title_body_schema(TokenizerKind::Whitespace), store, vec![0]).unwrap();
    assert_eq!(index.segment_count(), 2);
    let hits = index.search(&index.reader(), "a", 10).unwrap();
    assert_eq!(hits.len(), 1);
    assert_eq!(hits[0].fields[0].value, "first");
    let (schema, segments, committed) = index.into_parts();
    assert_eq!(schema.len(), 2);
    assert_eq!(segments.len(), 2);
    assert_eq!(committed, vec![0]);
    let again = Index::open(schema, segments, vec![0, 1]).unwrap();
    assert_eq!(again.search(&again.reader(), "a", 10).unwrap().len(), 2);
}

#[test]
fn an_index_with_a_missing_segment_is_corrupt() {
    let schema = || title_body_schema(TokenizerKind::Whitespace);
    let store = || vec![segment_of(&[("first", "a")])];
    assert_eq!(Index::open(schema(), store(), vec![1]).err(), Some(EngineError::CorruptIndex));
    assert_eq!(Index::open(schema(), store(), vec![0, 0]).err(), Some(EngineError::CorruptIndex));
    assert_eq!(Index::open(schema(), Vec::new(), vec![0]).err(), Some(EngineError::CorruptIndex));
    assert_eq!(
        Index::open(SchemaBuilder::new().build(), store(), Vec::new()).err(),
        Some(EngineError::CorruptIndex)
    );
    assert!(Index::open(schema(), Vec::new(), Vec::new()).is_ok());
}

#[test]
fn create_or_open_checks_the_schema_of_an_index_that_exists() {
    let schema = || title_body_schema(TokenizerKind::Whitespace);
    let created = create_or_open(None, Some(schema())).unwrap();
    assert_eq!(created.segment_count(), 0);
    assert_eq!(created.get_schema().len(), 2);
    assert_eq!(create_or_open(None, None).err(), Some(EngineError::Io));
    let opened = create_or_open(Some(created), None).unwrap();
    let opened = create_or_open(Some(opened), Some(schema())).unwrap();
    assert!(opened.get_schema().same_fields(&schema()));
    assert!(!opened.get_schema().same_fields(&title_body_schema(TokenizerKind::Raw)));
    assert_eq!(
        create_or_open(Some(opened), Some(title_body_schema(TokenizerKind::Raw))).err(),
        Some(EngineError::Schema(SchemaError::TypeMismatch))
    );
}
