use search_core::search::{create_index, search_index, setup_index, write_index};

#[test]
fn test_search() {
    let (index, _, _) = setup_index(None).unwrap();
    let result = search_index(&index, "搜索");
    println!("result is {:?}", result);
    assert_eq!(result, Ok(Vec::new()));
}

#[test]
fn test_create_index() {
    let index = create_index();
    assert_eq!(index.segment_count(), 1);
    assert_eq!(index.committed_ids(), &vec![0]);
    let hits = search_index(&index, "Tantivy").unwrap();
    assert_eq!(hits.len(), 1);
    assert_eq!(hits[0].fields[0].value, "Tantivy 中文搜索");
    assert_eq!(hits[0].fields[1].value, "这是一个基于 Rust 的全文本搜索引擎");
}

#[test]
fn test_write_index() {
    let (mut index, _, _) = setup_index(None).unwrap();
    let result = write_index(&mut index, "搜索测试", "搜索内容文字");
    println!("result is {:?}", result);
    assert_eq!(result, Ok(()));

    let result = search_index(&index, "搜索");
    println!("result is {:?}", result);
    let hits = result.unwrap();
    assert_eq!(hits.len(), 1);
    assert_eq!(hits[0].fields[0].name, "title");
    assert_eq!(hits[0].fields[0].value, "搜索测试");
    assert_eq!(hits[0].fields[1].name, "body");
    assert_eq!(hits[0].fields[1].value, "搜索内容文字");
}

#[test]
fn search_index5() {
    let index_path = None;
    let (index, title, body) = setup_index(index_path).unwrap();
    assert_eq!((title, body), (0, 1));

    let result = search_index(&index, "body:分词");
    println!("{:?}", result);
    assert_eq!(result, Ok(Vec::new()));
}

#[test]
fn setup_index_keeps_an_index_that_exists() {
    let (mut index, _, _) = setup_index(None).unwrap();
    write_index(&mut index, "中文搜索测试", "这是一个用Rust和Tantivy实现的全文搜索引擎，支持中文分词。").unwrap();
    let (index, title, body) = setup_index(Some(index)).unwrap();
    assert_eq!((title, body), (0, 1));
    assert_eq!(index.segment_count(), 1);
    let hits = search_index(&index, "body:分词").unwrap();
    assert_eq!(hits.len(), 1);
    assert_eq!(hits[0].fields[0].value, "中文搜索测试");
}

#[test]
fn write_index_appends_one_segment_per_document() {
    let mut index = create_index();
    assert_eq!(write_index(&mut index, "second", "words of the second"), Ok(()));
    assert_eq!(write_index(&mut index, "third", "words of the third"), Ok(()));
    assert_eq!(index.committed_ids(), &vec![0, 1, 2]);
    let hits = search_index(&index, "words").unwrap();
    assert_eq!(hits.iter().map(|h| (h.segment, h.doc)).collect::<Vec<_>>(), vec![(1, 0), (2, 0)]);
}

#[test]
fn write_index_fails_while_a_writer_holds_the_lock() {
    let mut index = create_index();
    let writer = index.writer().unwrap();
    assert_eq!(
        write_index(&mut index, "t", "b"),
        Err(search_core::index::EngineError::LockContention)
    );
    writer.close(&mut index);
    assert_eq!(write_index(&mut index, "t", "b"), Ok(()));
}

#[test]
fn search_index_returns_at_most_ten_results() {
    let mut index = create_index();
    for _ in 0..12 {
        write_index(&mut index, "many", "many").unwrap();
    }
    assert_eq!(search_index(&index, "many").unwrap().len(), 10);
}

#[test]
fn setup_index_names_the_title_and_body_fields_of_its_index() {
    let (index, title, body) = setup_index(None).unwrap();
    assert_eq!(index.get_schema().field(title).name, "title");
    assert_eq!(index.get_schema().field(body).name, "body");
    assert_eq!(index.get_schema().get_field("title"), Some(title));
    assert_eq!(index.get_schema().get_field("body"), Some(body));
}

#[test]
fn setup_index_refuses_an_index_with_another_schema() {
    let other = create_index();
    assert_eq!(
        setup_index(Some(other)).err(),
        Some(search_core::index::EngineError::Schema(
            search_core::schema::SchemaError::TypeMismatch
        ))
    );
    let mut builder = search_core::schema::SchemaBuilder::new();
    let options = search_core::schema::FieldOptions {
        stored: true,
        indexed: true,
        tokenizer: search_core::tokenizer::TokenizerKind::Jieba,
    };
    builder.define_field("body", search_core::schema::FieldType::Text, options).unwrap();
    builder.define_field("title", search_core::schema::FieldType::Text, options).unwrap();
    let swapped = search_core::index::Index::create(builder.build());
    assert!(setup_index(Some(swapped)).is_err());
}

#[test]
fn write_index_leaves_the_buffer_of_the_lock_holder_alone() {
    let mut index = create_index();
    let mut writer = index.writer().unwrap();
    let mut document = search_core::document::Document::new();
    document.add_text("title", "held");
    document.add_text("body", "buffered words");
    writer.add_document(&mut index, &document).unwrap();
    assert_eq!(
        write_index(&mut index, "t", "b"),
        Err(search_core::index::EngineError::LockContention)
    );
    assert_eq!(writer.commit(&mut index), Some(1));
    writer.close(&mut index);
    assert_eq!(search_index(&index, "buffered").unwrap().len(), 1);
}
