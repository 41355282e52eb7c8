use search_core::document::Document;
use search_core::index::Index;
use search_core::search::title_body_schema;
use search_core::tokenizer::TokenizerKind;
use tantivy::collector::TopDocs;
use tantivy::query::QueryParser;
use tantivy::schema::{
    IndexRecordOption, SchemaBuilder, TextFieldIndexing, TextOptions, Value,
};
use tantivy::TantivyDocument;

const DOCS: [(&str, &str); 6] = [
    ("d0", "an old man and the sea"),
    ("d1", "the sea and the old man"),
    ("d2", "old old man"),
    ("d3", "man old"),
    ("d4", "nothing to see here"),
    ("d5 sea", "中文 搜索 测试"),
];

const QUERIES: [&str; 12] = [
    "old",
    "sea",
    "old man",
    "\"old man\"",
    "\"man sea\"",
    "\"the sea\"",
    "\"old old man\"",
    "body:sea",
    "title:sea",
    "title:d0 body:nothing",
    "搜索",
    "whale",
];

fn titles_from_core(query: &str) -> Vec<String> {
    let mut index = Index::create(title_body_schema(TokenizerKind::Whitespace));
    let mut batch = Vec::new();
    for (title, body) in DOCS {
        let mut document = Document::new();
        document.add_text("title", title);
        document.add_text("body", body);
        batch.push(document);
    }
    index.write_batch(&batch).unwrap();
    let hits = index.search(&index.reader(), query, 100).unwrap();
    let mut titles: Vec<String> = hits.iter().map(|hit| hit.fields[0].value.clone()).collect();
    titles.sort();
    titles
}

fn titles_from_tantivy(query: &str) -> Vec<String> {
    let indexing = TextFieldIndexing::default()
        .set_tokenizer("whitespace")
        .set_index_option(IndexRecordOption::WithFreqsAndPositions);
    let options = TextOptions::default().set_stored().set_indexing_options(indexing);
    let mut builder = SchemaBuilder::new();
    let title = builder.add_text_field("title", options.clone());
    let body = builder.add_text_field("body", options);
    let index = tantivy::Index::create_in_ram(builder.build());
    let mut writer = index.writer::<TantivyDocument>(50_000_000).unwrap();
    for (t, b) in DOCS {
        let mut document = TantivyDocument::new();
        document.add_text(title, t);
        document.add_text(body, b);
        writer.add_document(document).unwrap();
    }
    writer.commit().unwrap();
    let searcher = index.reader().unwrap().searcher();
    let parsed = QueryParser::for_index(&index, vec![title, body]).parse_query(query).unwrap();
    let found = searcher.search(&parsed, &TopDocs::with_limit(100).order_by_score()).unwrap();
    let mut titles = Vec::new();
    for (_score, address) in found {
        let stored: TantivyDocument = searcher.doc(address).unwrap();
        titles.push(stored.get_first(title).unwrap().as_str().unwrap().to_string());
    }
    titles.sort();
    titles
}

#[test]
fn the_core_matches_the_documents_that_tantivy_matches() {
    for query in QUERIES {
        assert_eq!(titles_from_core(query), titles_from_tantivy(query), "query {}", query);
    }
}

#[test]
fn matches_of_sample_queries() {
    assert_eq!(titles_from_core("\"old man\""), vec!["d0", "d1", "d2"]);
    assert_eq!(titles_from_core("\"man sea\""), Vec::<String>::new());
    assert_eq!(titles_from_core("sea"), vec!["d0", "d1", "d5 sea"]);
    assert_eq!(titles_from_core("title:sea"), vec!["d5 sea"]);
}
