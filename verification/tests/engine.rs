use search_core::document::Document;
use search_core::index::{EngineError, Index, SearchHit, StoredField};
use search_core::query::ParseError;
use search_core::schema::{FieldOptions, FieldType, SchemaBuilder, SchemaError};
use search_core::scoring::weight_of;
use search_core::search::title_body_schema;
use search_core::tokenizer::{Analyzer, TokenizerKind};

fn field(name: &str, value: &str) -> StoredField {
    StoredField { name: name.to_string(), value: value.to_string() }
}

fn doc(title: &str, body: &str) -> Document {
    let mut doc = Document::new();
    doc.add_text("title", title);
    doc.add_text("body", body);
    doc
}

fn index_with(kind: TokenizerKind, segments: &[&[(&str, &str)]]) -> Index {
    let mut index = Index::create(title_body_schema(kind));
    let mut writer = index.writer().unwrap();
    for segment in segments {
        for (title, body) in segment.iter() {
            writer.add_document(&mut index, &doc(title, body)).unwrap();
        }
        writer.commit(&mut index);
    }
    writer.close(&mut index);
    index
}

fn places(hits: &Vec<SearchHit>) -> Vec<(u128, usize, usize)> {
    hits.iter().map(|h| (h.score, h.segment, h.doc)).collect()
}

fn search(index: &Index, query: &str, limit: usize) -> Vec<SearchHit> {
    index.search(&index.reader(), query, limit).unwrap()
}

#[test]
fn round_trip_returns_the_stored_fields_of_the_document() {
    let title = "中文搜索测试";
    let body = "这是一段很长很长的中文";
    let index = index_with(TokenizerKind::Jieba, &[&[(title, body)]]);
    let analyzer = Analyzer::new(true);
    let tokens = analyzer.tokenize(TokenizerKind::Jieba, body);
    assert!(!tokens.is_empty());
    for token in tokens.iter() {
        let hits = search(&index, &token.text, 10);
        assert_eq!(hits.len(), 1, "token {}", token.text);
        assert_eq!(hits[0].segment, 0);
        assert_eq!(hits[0].doc, 0);
        assert_eq!(hits[0].fields, vec![field("title", title), field("body", body)]);
    }
}

#[test]
fn documents_are_invisible_until_they_are_committed() {
    let mut index = index_with(TokenizerKind::Whitespace, &[&[("first", "apple")]]);
    let early = index.reader();
    let mut writer = index.writer().unwrap();
    writer.add_document(&mut index, &doc("second", "apple pear")).unwrap();
    let late = index.reader();
    for reader in [&early, &late] {
        let hits = index.search(reader, "apple", 10).unwrap();
        assert_eq!(places(&hits), vec![(2, 0, 0)]);
        assert!(index.search(reader, "pear", 10).unwrap().is_empty());
    }
    assert_eq!(writer.commit(&mut index), Some(1));
    for reader in [&early, &late] {
        let hits = index.search(reader, "apple", 10).unwrap();
        assert_eq!(places(&hits), vec![(2, 0, 0)]);
        assert!(index.search(reader, "pear", 10).unwrap().is_empty());
    }
    writer.close(&mut index);
}

#[test]
fn a_reader_sees_a_commit_only_after_reload() {
    let mut index = index_with(TokenizerKind::Whitespace, &[&[("first", "apple")]]);
    let mut reader = index.reader();
    let mut writer = index.writer().unwrap();
    writer.add_document(&mut index, &doc("second", "pear")).unwrap();
    assert_eq!(writer.commit(&mut index), Some(1));
    writer.close(&mut index);
    assert!(index.search(&reader, "pear", 10).unwrap().is_empty());
    reader.reload(&index);
    let hits = index.search(&reader, "pear", 10).unwrap();
    assert_eq!(places(&hits), vec![(3, 1, 0)]);
    assert_eq!(hits[0].fields, vec![field("title", "second"), field("body", "pear")]);
}

#[test]
fn a_phrase_needs_its_terms_side_by_side() {
    let index = index_with(TokenizerKind::Whitespace, &[&[("novel", "an old man and the sea")]]);
    assert!(search(&index, "\"man sea\"", 10).is_empty());
    let hits = search(&index, "\"old man\"", 10);
    assert_eq!(places(&hits), vec![(2, 0, 0)]);
    assert_eq!(hits[0].fields, vec![field("title", "novel"), field("body", "an old man and the sea")]);
    assert_eq!(places(&search(&index, "\"an old man and the sea\"", 10)), vec![(2, 0, 0)]);
    assert!(search(&index, "\"man old\"", 10).is_empty());
    assert!(search(&index, "\"the sea and\"", 10).is_empty());
}

#[test]
fn a_phrase_counts_every_place_where_it_starts() {
    let index = index_with(TokenizerKind::Whitespace, &[&[("t", "a b a b a"), ("t", "b a")]]);
    let hits = search(&index, "body:\"a b\"", 10);
    assert_eq!(places(&hits), vec![(6, 0, 0)]);
    let hits = search(&index, "body:\"b a\"", 10);
    assert_eq!(places(&hits), vec![(4, 0, 0), (2, 0, 1)]);
}

#[test]
fn a_phrase_does_not_reach_across_values_of_a_field() {
    let mut index = Index::create(title_body_schema(TokenizerKind::Whitespace));
    let mut writer = index.writer().unwrap();
    let mut split = Document::new();
    split.add_text("body", "old");
    split.add_text("body", "man");
    writer.add_document(&mut index, &split).unwrap();
    writer.commit(&mut index);
    writer.close(&mut index);
    assert!(search(&index, "\"old man\"", 10).is_empty());
    let hits = search(&index, "man", 10);
    assert_eq!(places(&hits), vec![(2, 0, 0)]);
    assert_eq!(hits[0].fields, vec![field("body", "old"), field("body", "man")]);
}

#[test]
fn searching_an_empty_index_gives_an_empty_list() {
    let mut index = Index::create(title_body_schema(TokenizerKind::Whitespace));
    assert_eq!(index.search(&index.reader(), "anything", 10), Ok(Vec::new()));
    assert_eq!(index.search(&index.reader(), "\"two words\" title:x", 10), Ok(Vec::new()));
    let mut writer = index.writer().unwrap();
    assert_eq!(writer.commit(&mut index), None);
    writer.close(&mut index);
    assert_eq!(index.segment_count(), 0);
    assert_eq!(index.search(&index.reader(), "anything", 10), Ok(Vec::new()));
}

#[test]
fn defining_a_field_twice_is_refused() {
    let options = FieldOptions { stored: true, indexed: true, tokenizer: TokenizerKind::Whitespace };
    let mut builder = SchemaBuilder::new();
    assert_eq!(builder.define_field("title", FieldType::Text, options), Ok(0));
    assert_eq!(
        builder.define_field("title", FieldType::Text, options),
        Err(SchemaError::DuplicateField)
    );
    assert_eq!(builder.define_field("body", FieldType::Text, options), Ok(1));
    let schema = builder.build();
    assert_eq!(schema.len(), 2);
    assert_eq!(schema.get_field("title"), Some(0));
    assert_eq!(schema.get_field("body"), Some(1));
    assert_eq!(schema.get_field("Title"), None);
}

#[test]
fn the_same_query_gives_the_same_ranking() {
    let index = index_with(
        TokenizerKind::Whitespace,
        &[&[("a", "apple pear"), ("b", "apple")], &[("c", "pear apple apple"), ("d", "plum")]],
    );
    let first = search(&index, "apple pear", 10);
    let second = search(&index, "apple pear", 10);
    assert_eq!(first, second);
    assert_eq!(places(&first), vec![(7, 1, 0), (5, 0, 0), (2, 0, 1)]);
}

#[test]
fn scores_grow_with_frequency_and_fall_with_spread() {
    let index = index_with(
        TokenizerKind::Whitespace,
        &[&[("t", "apple"), ("t", "apple apple"), ("t", "banana")]],
    );
    assert_eq!(places(&search(&index, "body:apple", 10)), vec![(4, 0, 1), (2, 0, 0)]);
    assert_eq!(places(&search(&index, "body:banana", 10)), vec![(4, 0, 2)]);
    assert_eq!(places(&search(&index, "t", 10)), vec![(2, 0, 0), (2, 0, 1), (2, 0, 2)]);
}

#[test]
fn weight_formula() {
    assert_eq!(weight_of(0, 1, 10), 0);
    assert_eq!(weight_of(3, 0, 10), 0);
    assert_eq!(weight_of(1, 1, 1), 2);
    assert_eq!(weight_of(2, 1, 3), 8);
    assert_eq!(weight_of(2, 2, 3), 4);
    assert_eq!(weight_of(2, 4, 3), 2);
    assert_eq!(weight_of(0xffff, 1, 0xffff), 0xffff * 0x10000);
    assert_eq!(weight_of(0x1_0000, 1, 0x1_0000), 0xffff * 0x10000);
    assert_eq!(weight_of(usize::MAX, 1, u128::MAX), 0xffff_0000);
}

#[test]
fn equal_scores_are_ordered_by_segment_then_document() {
    let index = index_with(
        TokenizerKind::Whitespace,
        &[&[("x", "same"), ("y", "same")], &[("z", "same")]],
    );
    let hits = search(&index, "same", 10);
    assert_eq!(places(&hits), vec![(2, 0, 0), (2, 0, 1), (2, 1, 0)]);
    assert_eq!(hits[2].fields, vec![field("title", "z"), field("body", "same")]);
}

#[test]
fn the_limit_bounds_the_number_of_results() {
    let index = index_with(
        TokenizerKind::Whitespace,
        &[&[("t", "apple"), ("t", "apple apple apple"), ("t", "apple apple")]],
    );
    assert_eq!(places(&search(&index, "apple", 10)), vec![(6, 0, 1), (4, 0, 2), (2, 0, 0)]);
    assert_eq!(places(&search(&index, "apple", 2)), vec![(6, 0, 1), (4, 0, 2)]);
    assert_eq!(places(&search(&index, "apple", 1)), vec![(6, 0, 1)]);
    assert!(search(&index, "apple", 0).is_empty());
}

#[test]
fn a_term_that_is_not_indexed_matches_nothing() {
    let index = index_with(TokenizerKind::Whitespace, &[&[("t", "apple")]]);
    assert!(search(&index, "pear", 10).is_empty());
    assert!(search(&index, "title:apple", 10).is_empty());
    assert!(search(&index, "Apple", 10).is_empty());
}

#[test]
fn a_malformed_query_is_an_error() {
    let index = index_with(TokenizerKind::Whitespace, &[&[("t", "apple")]]);
    let reader = index.reader();
    assert_eq!(
        index.search(&reader, "apple \"open", 10),
        Err(EngineError::Parse(ParseError::Syntax(6)))
    );
    assert_eq!(
        index.search(&reader, "author:apple", 10),
        Err(EngineError::Parse(ParseError::UnknownField))
    );
    assert_eq!(index.search(&reader, "", 10), Err(EngineError::Parse(ParseError::Syntax(0))));
}

#[test]
fn a_document_with_an_unknown_field_is_refused() {
    let mut index = Index::create(title_body_schema(TokenizerKind::Whitespace));
    let mut writer = index.writer().unwrap();
    let mut bad = Document::new();
    bad.add_text("title", "fine");
    bad.add_text("author", "nobody");
    bad.add_integer("body", 7);
    assert_eq!(writer.add_document(&mut index, &bad), Err(SchemaError::UnknownField));
    assert_eq!(writer.commit(&mut index), None);
    writer.close(&mut index);
    assert!(search(&index, "fine", 10).is_empty());
}

#[test]
fn a_number_for_a_text_field_is_refused() {
    let mut index = Index::create(title_body_schema(TokenizerKind::Whitespace));
    let mut writer = index.writer().unwrap();
    let mut bad = Document::new();
    bad.add_integer("body", 7);
    bad.add_text("author", "nobody");
    assert_eq!(writer.add_document(&mut index, &bad), Err(SchemaError::TypeMismatch));
    writer.add_document(&mut index, &doc("good", "one")).unwrap();
    assert_eq!(writer.commit(&mut index), Some(0));
    writer.close(&mut index);
    assert_eq!(places(&search(&index, "one", 10)), vec![(2, 0, 0)]);
}

#[test]
fn a_second_writer_is_refused_while_the_first_holds_the_lock() {
    let mut index = Index::create(title_body_schema(TokenizerKind::Whitespace));
    let writer = index.writer().unwrap();
    assert_eq!(index.writer().err(), Some(EngineError::LockContention));
    writer.close(&mut index);
    let again = index.writer();
    assert!(again.is_ok());
    again.unwrap().close(&mut index);
}

#[test]
fn closing_a_writer_drops_what_was_not_committed() {
    let mut index = Index::create(title_body_schema(TokenizerKind::Whitespace));
    let mut writer = index.writer().unwrap();
    writer.add_document(&mut index, &doc("lost", "words")).unwrap();
    writer.close(&mut index);
    let mut writer = index.writer().unwrap();
    assert_eq!(writer.commit(&mut index), None);
    writer.close(&mut index);
    assert!(search(&index, "words", 10).is_empty());
}

#[test]
fn a_reader_of_another_index_is_refused() {
    let full = index_with(TokenizerKind::Whitespace, &[&[("t", "apple")]]);
    let empty = Index::create(title_body_schema(TokenizerKind::Whitespace));
    let reader = full.reader();
    assert_eq!(empty.search(&reader, "apple", 10), Err(EngineError::CorruptIndex));
    assert_eq!(empty.search(&reader, "\"open", 10), Err(EngineError::CorruptIndex));
}

#[test]
fn fields_that_are_not_stored_are_not_returned() {
    let mut builder = SchemaBuilder::new();
    let hidden = FieldOptions { stored: false, indexed: true, tokenizer: TokenizerKind::Whitespace };
    let kept = FieldOptions { stored: true, indexed: false, tokenizer: TokenizerKind::Raw };
    builder.define_field("text", FieldType::Text, hidden).unwrap();
    builder.define_field("label", FieldType::Text, kept).unwrap();
    let mut index = Index::create(builder.build());
    let mut writer = index.writer().unwrap();
    let mut document = Document::new();
    document.add_text("label", "kept as is");
    document.add_text("text", "find me");
    writer.add_document(&mut index, &document).unwrap();
    writer.commit(&mut index);
    writer.close(&mut index);
    let hits = search(&index, "find", 10);
    assert_eq!(places(&hits), vec![(2, 0, 0)]);
    assert_eq!(hits[0].fields, vec![field("label", "kept as is")]);
    assert!(search(&index, "kept", 10).is_empty());
    assert!(search(&index, "label:kept", 10).is_empty());
}

#[test]
fn a_raw_field_matches_its_whole_value_only() {
    let mut builder = SchemaBuilder::new();
    let raw = FieldOptions { stored: true, indexed: true, tokenizer: TokenizerKind::Raw };
    builder.define_field("tag", FieldType::Text, raw).unwrap();
    let mut index = Index::create(builder.build());
    let mut writer = index.writer().unwrap();
    let mut document = Document::new();
    document.add_text("tag", "rust");
    writer.add_document(&mut index, &document).unwrap();
    let mut other = Document::new();
    other.add_text("tag", "rust lang");
    writer.add_document(&mut index, &other).unwrap();
    writer.commit(&mut index);
    writer.close(&mut index);
    assert_eq!(places(&search(&index, "tag:rust", 10)), vec![(3, 0, 0)]);
    assert!(search(&index, "lang", 10).is_empty());
}

#[test]
fn a_batch_is_written_as_one_segment_or_not_at_all() {
    let mut index = Index::create(title_body_schema(TokenizerKind::Whitespace));
    assert_eq!(index.write_batch(&vec![doc("a", "one two"), doc("b", "two")]), Ok(Some(0)));
    assert_eq!(index.write_batch(&Vec::new()), Ok(None));
    let mut bad = Document::new();
    bad.add_text("author", "nobody");
    let mut worse = Document::new();
    worse.add_integer("title", 3);
    assert_eq!(
        index.write_batch(&vec![doc("c", "two"), bad, worse]),
        Err(EngineError::Schema(SchemaError::UnknownField))
    );
    assert_eq!(index.segment_count(), 1);
    assert_eq!(index.committed_ids(), &vec![0]);
    assert_eq!(places(&search(&index, "two", 10)), vec![(2, 0, 0), (2, 0, 1)]);
    let writer = index.writer().unwrap();
    assert_eq!(index.write_batch(&vec![doc("d", "two")]), Err(EngineError::LockContention));
    writer.close(&mut index);
    assert_eq!(index.write_batch(&vec![doc("d", "two")]), Ok(Some(1)));
    assert_eq!(places(&search(&index, "two", 10)), vec![(2, 0, 0), (2, 0, 1), (2, 1, 0)]);
}
