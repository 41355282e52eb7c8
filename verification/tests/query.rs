use search_core::query::{parse_query, read_clauses, ParseError, RawClause};
use search_core::search::title_body_schema;
use search_core::tokenizer::TokenizerKind;

fn terms(words: &[&str]) -> Vec<Vec<u8>> {
    words.iter().map(|w| w.as_bytes().to_vec()).collect()
}

#[test]
fn bare_terms_become_one_clause_each() {
    let schema = title_body_schema(TokenizerKind::Whitespace);
    let query = parse_query(&schema, "  old   man ").unwrap();
    assert_eq!(query.clauses.len(), 2);
    assert_eq!(query.clauses[0].field, None);
    assert_eq!(query.clauses[0].terms, terms(&["old"]));
    assert_eq!(query.clauses[1].field, None);
    assert_eq!(query.clauses[1].terms, terms(&["man"]));
}

#[test]
fn quoted_words_become_a_phrase() {
    let schema = title_body_schema(TokenizerKind::Whitespace);
    let query = parse_query(&schema, "\"old  man\" sea").unwrap();
    assert_eq!(query.clauses.len(), 2);
    assert_eq!(query.clauses[0].field, None);
    assert_eq!(query.clauses[0].terms, terms(&["old", "man"]));
    assert_eq!(query.clauses[1].terms, terms(&["sea"]));
}

#[test]
fn field_prefix_restricts_a_term_or_a_phrase() {
    let schema = title_body_schema(TokenizerKind::Whitespace);
    let query = parse_query(&schema, "title:sea body:\"old man\"").unwrap();
    assert_eq!(query.clauses.len(), 2);
    assert_eq!(query.clauses[0].field, Some(0));
    assert_eq!(query.clauses[0].terms, terms(&["sea"]));
    assert_eq!(query.clauses[1].field, Some(1));
    assert_eq!(query.clauses[1].terms, terms(&["old", "man"]));
}

#[test]
fn chinese_terms_are_kept_as_bytes() {
    let schema = title_body_schema(TokenizerKind::Jieba);
    let query = parse_query(&schema, "body:分词 搜索").unwrap();
    assert_eq!(query.clauses[0].field, Some(1));
    assert_eq!(query.clauses[0].terms, terms(&["分词"]));
    assert_eq!(query.clauses[1].field, None);
    assert_eq!(query.clauses[1].terms, terms(&["搜索"]));
}

#[test]
fn unknown_field_is_refused() {
    let schema = title_body_schema(TokenizerKind::Whitespace);
    assert_eq!(parse_query(&schema, "author:melville"), Err(ParseError::UnknownField));
    assert_eq!(parse_query(&schema, "sea Title:sea"), Err(ParseError::UnknownField));
}

#[test]
fn syntax_errors_carry_their_byte_offset() {
    let schema = title_body_schema(TokenizerKind::Whitespace);
    assert_eq!(parse_query(&schema, ""), Err(ParseError::Syntax(0)));
    assert_eq!(parse_query(&schema, "   "), Err(ParseError::Syntax(3)));
    assert_eq!(parse_query(&schema, "sea \"old man"), Err(ParseError::Syntax(4)));
    assert_eq!(parse_query(&schema, "\"\""), Err(ParseError::Syntax(0)));
    assert_eq!(parse_query(&schema, "a \"  \""), Err(ParseError::Syntax(2)));
    assert_eq!(parse_query(&schema, "\"old man\"sea"), Err(ParseError::Syntax(9)));
    assert_eq!(parse_query(&schema, "old\"man\""), Err(ParseError::Syntax(3)));
    assert_eq!(parse_query(&schema, ":sea"), Err(ParseError::Syntax(0)));
    assert_eq!(parse_query(&schema, "sea title:"), Err(ParseError::Syntax(9)));
    assert_eq!(parse_query(&schema, "title: sea"), Err(ParseError::Syntax(5)));
    assert_eq!(parse_query(&schema, "title:body:sea"), Err(ParseError::Syntax(10)));
    assert_eq!(parse_query(&schema, "title:sea\"x\""), Err(ParseError::Syntax(9)));
}

#[test]
fn syntax_is_checked_before_field_names() {
    let schema = title_body_schema(TokenizerKind::Whitespace);
    assert_eq!(parse_query(&schema, "author:x \"open"), Err(ParseError::Syntax(9)));
}

#[test]
fn read_clauses_keeps_field_names_as_written() {
    let clauses = read_clauses(b"author:x y").unwrap();
    assert_eq!(
        clauses,
        vec![
            RawClause { field: Some(b"author".to_vec()), terms: terms(&["x"]) },
            RawClause { field: None, terms: terms(&["y"]) },
        ]
    );
    assert_eq!(read_clauses(b"x \""), Err(2));
    assert_eq!(read_clauses(b""), Ok(Vec::new()));
}
