use search_core::tokenizer::{
    split_whitespace_spans, split_words, tokens_from_spans, Analyzer, JiebaTokenStream,
    JiebaTokenizer, Token, TokenizerKind,
};

fn texts(tokens: &Vec<Token>) -> Vec<String> {
    tokens.iter().map(|t| t.text.clone()).collect()
}

fn spans(tokens: &Vec<Token>) -> Vec<(usize, usize)> {
    tokens.iter().map(|t| (t.offset_from, t.offset_to)).collect()
}

#[test]
fn whitespace_tokens_have_byte_offsets_and_positions() {
    let analyzer = Analyzer::new(false);
    let tokens = analyzer.tokenize(TokenizerKind::Whitespace, "  an old\tman \n");
    assert_eq!(texts(&tokens), vec!["an", "old", "man"]);
    assert_eq!(spans(&tokens), vec![(2, 4), (5, 8), (9, 12)]);
    for (i, token) in tokens.iter().enumerate() {
        assert_eq!(token.position, i);
        assert_eq!(token.position_length, 1);
    }
}

#[test]
fn whitespace_offsets_count_bytes_not_characters() {
    let analyzer = Analyzer::new(false);
    let tokens = analyzer.tokenize(TokenizerKind::Whitespace, "中文 搜索");
    assert_eq!(texts(&tokens), vec!["中文", "搜索"]);
    assert_eq!(spans(&tokens), vec![(0, 6), (7, 13)]);
}

#[test]
fn whitespace_tokenizer_of_blank_text_is_empty() {
    let analyzer = Analyzer::new(false);
    assert!(analyzer.tokenize(TokenizerKind::Whitespace, "").is_empty());
    assert!(analyzer.tokenize(TokenizerKind::Whitespace, " \t\r\n\x0c").is_empty());
}

#[test]
fn vertical_tab_is_no_white_space() {
    assert_eq!(split_words(b"a\x0bb c"), vec![(0, 3), (4, 5)]);
}

#[test]
fn raw_tokenizer_keeps_the_whole_value() {
    let analyzer = Analyzer::new(false);
    let tokens = analyzer.tokenize(TokenizerKind::Raw, "an old man");
    assert_eq!(texts(&tokens), vec!["an old man"]);
    assert_eq!(spans(&tokens), vec![(0, 10)]);
    assert_eq!(tokens[0].position, 0);
    assert_eq!(tokens[0].position_length, 1);
    let empty = analyzer.tokenize(TokenizerKind::Raw, "");
    assert_eq!(texts(&empty), vec![""]);
    assert_eq!(spans(&empty), vec![(0, 0)]);
}

#[test]
fn split_whitespace_spans_matches_split_words() {
    let text = "to be  or not";
    assert_eq!(split_whitespace_spans(text), vec![(0, 2), (3, 5), (7, 9), (10, 13)]);
    assert_eq!(split_words(text.as_bytes()), split_whitespace_spans(text));
}

#[test]
fn tokens_from_spans_slices_the_text() {
    let tokens = tokens_from_spans("中文搜索测试", &vec![(0, 6), (6, 12), (12, 18)]);
    assert_eq!(texts(&tokens), vec!["中文", "搜索", "测试"]);
    assert_eq!(spans(&tokens), vec![(0, 6), (6, 12), (12, 18)]);
    assert_eq!(tokens[2].position, 2);
    let overlapping = tokens_from_spans("abcd", &vec![(0, 3), (1, 4), (2, 2)]);
    assert_eq!(texts(&overlapping), vec!["abc", "bcd", ""]);
    assert_eq!(overlapping[1].position, 1);
}

#[test]
fn jieba_segments_chinese_text() {
    let tokenizer = JiebaTokenizer::new();
    let tokens = tokenizer.tokenize("中文搜索测试");
    assert_eq!(texts(&tokens), vec!["中文搜索", "测试"]);
    assert_eq!(spans(&tokens), vec![(0, 12), (12, 18)]);
    for (i, token) in tokens.iter().enumerate() {
        assert_eq!(token.position, i);
        assert_eq!(token.position_length, 1);
    }
}

#[test]
fn jieba_tokens_cover_the_text_they_were_cut_from() {
    let tokenizer = JiebaTokenizer::new();
    let text = "这是一段很长很长的中文";
    let tokens = tokenizer.tokenize(text);
    assert!(tokens.len() > 1);
    for token in tokens.iter() {
        assert_eq!(&text[token.offset_from..token.offset_to], token.text);
    }
}

#[test]
fn tokenizing_twice_gives_the_same_tokens() {
    let analyzer = Analyzer::new(true);
    for kind in [TokenizerKind::Whitespace, TokenizerKind::Raw, TokenizerKind::Jieba] {
        for text in ["这是一段很长很长的中文", "an old man and the sea", ""] {
            let first = analyzer.tokenize(kind, text);
            let second = analyzer.tokenize(kind, text);
            assert_eq!(first.len(), second.len());
            for (a, b) in first.iter().zip(second.iter()) {
                assert_eq!(a.text, b.text);
                assert_eq!(a.offset_from, b.offset_from);
                assert_eq!(a.offset_to, b.offset_to);
                assert_eq!(a.position, b.position);
                assert_eq!(a.position_length, b.position_length);
            }
        }
    }
}

#[test]
fn analyzer_with_dictionary_agrees_with_the_jieba_tokenizer() {
    let analyzer = Analyzer::new(true);
    let tokenizer = JiebaTokenizer::new();
    let text = "我们中出了一个叛徒";
    let first = analyzer.tokenize(TokenizerKind::Jieba, text);
    let second = tokenizer.tokenize(text);
    assert_eq!(texts(&first), texts(&second));
    assert_eq!(spans(&first), spans(&second));
    assert!(first.len() > 1);
}

#[test]
fn token_stream_yields_every_token_once() {
    let tokenizer = JiebaTokenizer::new();
    let mut stream = tokenizer.token_stream("中文搜索测试");
    let mut seen = Vec::new();
    while stream.advance() {
        seen.push(stream.token().text.clone());
    }
    assert_eq!(seen, vec!["中文搜索", "测试"]);
    assert!(!stream.advance());
    assert_eq!(stream.token().text, "测试");
}

#[test]
fn token_stream_over_given_tokens() {
    let tokens = tokens_from_spans("a b", &vec![(0, 1), (2, 3)]);
    let mut stream = JiebaTokenStream::new(tokens);
    assert!(stream.advance());
    assert_eq!(stream.token().text, "a");
    assert_eq!(stream.token().position, 0);
    assert!(stream.advance());
    assert_eq!(stream.token().text, "b");
    assert!(!stream.advance());
    let mut empty = JiebaTokenStream::new(Vec::new());
    assert!(!empty.advance());
}

#[test]
fn token_mut_changes_the_current_token_only() {
    let tokens = tokens_from_spans("Ab Cd", &vec![(0, 2), (3, 5)]);
    let mut stream = JiebaTokenStream::new(tokens);
    assert!(stream.advance());
    stream.token_mut().text.make_ascii_lowercase();
    assert_eq!(stream.token().text, "ab");
    assert_eq!(stream.token().offset_to, 2);
    assert!(stream.advance());
    assert_eq!(stream.token().text, "Cd");
    assert_eq!(stream.token().position, 1);
}

#[test]
fn jieba_spans_are_slices_of_mixed_text() {
    let analyzer = Analyzer::new(true);
    for text in [
        "Rust是一种系统编程语言，安全且高性能，适合构建搜索引擎。",
        "line one\r\nline two\n\n😀 emoji ünïcödé WES-5.4.5",
        "这是一个用Rust和Tantivy实现的全文搜索引擎，支持中文分词。",
        " ",
        "",
    ] {
        let tokens = analyzer.tokenize(TokenizerKind::Jieba, text);
        let mut end = 0;
        for (i, token) in tokens.iter().enumerate() {
            assert_eq!(token.position, i);
            assert_eq!(&text[token.offset_from..token.offset_to], token.text);
            assert_eq!(token.offset_from, end);
            end = token.offset_to;
        }
        assert_eq!(end, text.len());
    }
}

#[test]
fn jieba_cut_gives_the_spans_of_the_tokens() {
    let tokenizer = JiebaTokenizer::new();
    let text = "中文搜索测试";
    assert_eq!(tokenizer.cut(text), vec![(0, 12), (12, 18)]);
    assert_eq!(tokenizer.cut(""), Vec::new());
    let tokens = tokenizer.tokenize(text);
    assert_eq!(spans(&tokens), tokenizer.cut(text));
    for token in tokens.iter() {
        assert!(text.is_char_boundary(token.offset_from));
        assert!(text.is_char_boundary(token.offset_to));
        assert_eq!(&text[token.offset_from..token.offset_to], token.text);
    }
}
