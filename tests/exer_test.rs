use sorbe_tpl::{ConfigSource, Lexer, Token, TokenError, Tokenize};

fn tokenize(text: &str) -> Result<Vec<Token>, TokenError> {
    Lexer::tokenize(ConfigSource::new(text.to_string()))
}

#[test]
fn test_error_on_invalid_char() {
    let result = tokenize("a$").unwrap_err();
    assert_eq!(result.message(), "Invalid character: '$'");

    let result = tokenize("a!").unwrap_err();
    assert_eq!(result.message(), "Invalid character: '!'");
}

#[test]
fn exer_test_test_generate_eof() {
    let result = tokenize("").unwrap();
    assert_eq!(result, vec![Token::Eof]);
}

#[test]
fn exer_test_test_generate_newline() {
    let result = tokenize("\n").unwrap();
    assert_eq!(result, vec![Token::Newline, Token::Eof]);
}

#[test]
fn test_generate_single_identifier() {
    let result = tokenize("a").unwrap();
    assert_eq!(result, vec![Token::Ident('a'.to_string()), Token::Eof]);
}

#[test]
fn test_error_on_single_jp_identifier() {
    let result = tokenize("あ").unwrap_err();
    assert_eq!(result.message(), "Invalid character: 'あ'");
}

#[test]
fn test_generate_multi_char_identifier() {
    let result = tokenize("ab").unwrap();
    assert_eq!(result, vec![Token::Ident("ab".to_string()), Token::Eof]);
}

#[test]
fn test_generate_single_quote_single_char_identifier() {
    let result = tokenize("'a'").unwrap();
    assert_eq!(
        result,
        vec![Token::QuotedIdent("a".to_string()), Token::Eof]
    );
}

#[test]
fn test_generate_single_quote_jp_identifier() {
    let result = tokenize("'あ'").unwrap();
    assert_eq!(
        result,
        vec![Token::QuotedIdent("あ".to_string()), Token::Eof]
    );
}

#[test]
fn test_generate_single_quote_multi_char_identifier() {
    let result = tokenize("'ab'").unwrap();
    assert_eq!(
        result,
        vec![Token::QuotedIdent("ab".to_string()), Token::Eof]
    );
}

#[test]
fn test_generate_single_quote_included_line_break() {
    let result = tokenize(r"'a\nb'").unwrap();
    assert_eq!(
        result,
        vec![Token::QuotedIdent("a\\nb".to_string()), Token::Eof]
    );
}

#[test]
fn test_generate_double_quote_single_char_identifier() {
    let result = tokenize("\"a\"").unwrap();
    assert_eq!(
        result,
        vec![Token::QuotedIdent("a".to_string()), Token::Eof]
    );
}

#[test]
fn test_generate_double_quote_jp_identifier() {
    let result = tokenize("\"あ\"").unwrap();
    assert_eq!(
        result,
        vec![Token::QuotedIdent("あ".to_string()), Token::Eof]
    );
}

#[test]
fn test_generate_double_quote_multi_char_identifier() {
    let result = tokenize("\"ab\"").unwrap();
    assert_eq!(
        result,
        vec![Token::QuotedIdent("ab".to_string()), Token::Eof]
    );
}

#[test]
fn test_generate_double_quote_included_line_break() {
    let result = tokenize(r#""a\nb""#).unwrap();
    assert_eq!(
        result,
        vec![Token::QuotedIdent("a\nb".to_string()), Token::Eof]
    );
}

#[test]
fn test_skip_comment() {
    let result = tokenize("# comment\n").unwrap();
    assert_eq!(result, vec![Token::Newline, Token::Eof]);

    let result = tokenize("# comment\n# another comment\n").unwrap();
    assert_eq!(result, vec![Token::Newline, Token::Newline, Token::Eof]);

    let result = tokenize("test # comment").unwrap();
    assert_eq!(result, vec![Token::Ident("test".to_string()), Token::Eof]);

    let text = r#"
        # comment
        test
        another
    "#;

    let result = tokenize(text).unwrap();
    assert_eq!(
        result,
        vec![
            Token::Newline,
            Token::Newline,
            Token::Ident("test".to_string()),
            Token::Newline,
            Token::Ident("another".to_string()),
            Token::Newline,
            Token::Eof,
        ]
    );
}

#[test]
fn exer_test_test_standard_case() {
    let text = r#"
        key = value
    "#;

    let result = tokenize(text).unwrap();
    assert_eq!(
        result,
        vec![
            Token::Newline,
            Token::Ident("key".to_string()),
            Token::Separator,
            Token::Ident("value".to_string()),
            Token::Newline,
            Token::Eof,
        ]
    );

    let text = r#"
        key = 'value'
    "#;

    let result = tokenize(text).unwrap();
    assert_eq!(
        result,
        vec![
            Token::Newline,
            Token::Ident("key".to_string()),
            Token::Separator,
            Token::QuotedIdent("value".to_string()),
            Token::Newline,
            Token::Eof,
        ]
    );

    let text = r#"
        key = "value"
    "#;

    let result = tokenize(text).unwrap();
    assert_eq!(
        result,
        vec![
            Token::Newline,
            Token::Ident("key".to_string()),
            Token::Separator,
            Token::QuotedIdent("value".to_string()),
            Token::Newline,
            Token::Eof,
        ]
    );
}

#[test]
fn exer_test_test_multi_line_string() {
    let text = r#"
        key1 = value1
        key2 = value2
    "#;

    let result = tokenize(text).unwrap();
    assert_eq!(
        result,
        vec![
            Token::Newline,
            Token::Ident("key1".to_string()),
            Token::Separator,
            Token::Ident("value1".to_string()),
            Token::Newline,
            Token::Ident("key2".to_string()),
            Token::Separator,
            Token::Ident("value2".to_string()),
            Token::Newline,
            Token::Eof,
        ]
    );

    let text = r#"
        key1 = 'value1'
        key2 = 'value2'
    "#;
    let result = tokenize(text).unwrap();
    assert_eq!(
        result,
        vec![
            Token::Newline,
            Token::Ident("key1".to_string()),
            Token::Separator,
            Token::QuotedIdent("value1".to_string()),
            Token::Newline,
            Token::Ident("key2".to_string()),
            Token::Separator,
            Token::QuotedIdent("value2".to_string()),
            Token::Newline,
            Token::Eof,
        ]
    );

    let text = r#"
        key1 = "value1"
        key2 = "value2"
    "#;
    let result = tokenize(text).unwrap();
    assert_eq!(
        result,
        vec![
            Token::Newline,
            Token::Ident("key1".to_string()),
            Token::Separator,
            Token::QuotedIdent("value1".to_string()),
            Token::Newline,
            Token::Ident("key2".to_string()),
            Token::Separator,
            Token::QuotedIdent("value2".to_string()),
            Token::Newline,
            Token::Eof,
        ]
    );
}

#[test]
fn exer_test_test_with_dot_case() {
    let text = r#"
        key. value = value
    "#;

    let result = tokenize(text).unwrap();
    assert_eq!(
        result,
        vec![
            Token::Newline,
            Token::Ident("key".to_string()),
            Token::Dot,
            Token::Ident("value".to_string()),
            Token::Separator,
            Token::Ident("value".to_string()),
            Token::Newline,
            Token::Eof,
        ]
    );

    let text = r#"
        key.value = 'value'
    "#;

    let result = tokenize(text).unwrap();
    assert_eq!(
        result,
        vec![
            Token::Newline,
            Token::Ident("key".to_string()),
            Token::Dot,
            Token::Ident("value".to_string()),
            Token::Separator,
            Token::QuotedIdent("value".to_string()),
            Token::Newline,
            Token::Eof,
        ]
    );

    let text = r#"
        key.value = "value"
    "#;

    let result = tokenize(text).unwrap();
    assert_eq!(
        result,
        vec![
            Token::Newline,
            Token::Ident("key".to_string()),
            Token::Dot,
            Token::Ident("value".to_string()),
            Token::Separator,
            Token::QuotedIdent("value".to_string()),
            Token::Newline,
            Token::Eof,
        ]
    );
}

#[test]
fn exer_test_test_with_comment_case() {
    let text = r#"
        key = value # comment
    "#;

    let result = tokenize(text).unwrap();
    assert_eq!(
        result,
        vec![
            Token::Newline,
            Token::Ident("key".to_string()),
            Token::Separator,
            Token::Ident("value".to_string()),
            Token::Newline,
            Token::Eof,
        ]
    );

    let text = r#"
        # comment
        key = value
    "#;

    let result = tokenize(text).unwrap();
    assert_eq!(
        result,
        vec![
            Token::Newline,
            Token::Newline,
            Token::Ident("key".to_string()),
            Token::Separator,
            Token::Ident("value".to_string()),
            Token::Newline,
            Token::Eof,
        ]
    );

    let text = r#"
        key = 'value' # comment
    "#;

    let result = tokenize(text).unwrap();
    assert_eq!(
        result,
        vec![
            Token::Newline,
            Token::Ident("key".to_string()),
            Token::Separator,
            Token::QuotedIdent("value".to_string()),
            Token::Newline,
            Token::Eof,
        ]
    );

    let text = r#"
        # comment
        key = 'value'
    "#;

    let result = tokenize(text).unwrap();
    assert_eq!(
        result,
        vec![
            Token::Newline,
            Token::Newline,
            Token::Ident("key".to_string()),
            Token::Separator,
            Token::QuotedIdent("value".to_string()),
            Token::Newline,
            Token::Eof,
        ]
    );

    let text = r#"
        key = "value" # comment
    "#;

    let result = tokenize(text).unwrap();
    assert_eq!(
        result,
        vec![
            Token::Newline,
            Token::Ident("key".to_string()),
            Token::Separator,
            Token::QuotedIdent("value".to_string()),
            Token::Newline,
            Token::Eof,
        ]
    );

    let text = r#"
        # comment
        key = "value"
    "#;

    let result = tokenize(text).unwrap();
    assert_eq!(
        result,
        vec![
            Token::Newline,
            Token::Newline,
            Token::Ident("key".to_string()),
            Token::Separator,
            Token::QuotedIdent("value".to_string()),
            Token::Newline,
            Token::Eof,
        ]
    );
}

#[test]
fn exer_test_test_invalid_case() {
    let text = "key = 'value";

    let result = tokenize(text);
    assert!(result.is_err());
    assert_eq!(
        result.unwrap_err().message(),
        "Unterminated string literal"
    );

    let text = "key = \"value";

    let result = tokenize(text);
    assert!(result.is_err());
    assert_eq!(
        result.unwrap_err().message(),
        "Unterminated string literal"
    );

    let text = "@key = value";
    let result = tokenize(text);
    assert!(result.is_err());
    assert_eq!(result.unwrap_err().message(), "Invalid character: '@'");
}
