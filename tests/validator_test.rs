use sorbe_tpl::Token::{Dot, Eof, Ident, Newline, QuotedIdent, Separator};
use sorbe_tpl::{
    KeyError, LineStructureError, Pattern, Syntax, SyntaxValidationError, SyntaxValidator,
    SyntaxValue, Token, TokenValidationError, TokenValidator, ValueError,
};

fn id(s: &str) -> Token {
    Ident(s.to_string())
}

fn quoted(s: &str) -> Token {
    QuotedIdent(s.to_string())
}

fn pattern(key: &[&str], value: &str) -> Pattern {
    Pattern {
        key_parts: key.iter().map(|k| k.to_string()).collect(),
        value: SyntaxValue::Plain(value.to_string()),
    }
}

#[test]
fn key_test_valid() {
    assert!(SyntaxValidator::validate_key(&[id("key")]).is_ok());
    assert!(SyntaxValidator::validate_key(&[id("key-subkey")]).is_ok());
    assert!(SyntaxValidator::validate_key(&[id("key123")]).is_ok());
    assert!(SyntaxValidator::validate_key(&[id("key"), Dot, id("subkey")]).is_ok());
    assert!(
        SyntaxValidator::validate_key(&[id("key"), Dot, id("subkey"), Dot, id("subsubkey")])
            .is_ok()
    );
}

#[test]
fn test_key_starts_with_hyphen() {
    let result = SyntaxValidator::validate_key(&[id("-key")]);
    assert!(matches!(result, Err(KeyError::InvalidKeyStartsWithHyphen { .. })));
}

#[test]
fn test_key_with_trailing_hyphen() {
    let result = SyntaxValidator::validate_key(&[id("key-")]);
    assert!(matches!(result.unwrap_err(), KeyError::InvalidKeyEndsWithHyphen { .. }));
}

#[test]
fn test_dot_after_dot() {
    let result = SyntaxValidator::validate_key(&[id("key"), Dot, Dot]);
    assert!(matches!(result.unwrap_err(), KeyError::UnexpectedTokenInKey));
}

#[test]
fn test_unexpected_token_in_key() {
    let result = SyntaxValidator::validate_key(&[id("key"), id("subkey")]);
    assert!(matches!(result.unwrap_err(), KeyError::UnexpectedTokenInKey));
}

#[test]
fn test_key_with_trailing_dot() {
    let result = SyntaxValidator::validate_key(&[id("key"), Dot]);
    assert!(result.is_err());
    assert!(matches!(result.unwrap_err(), KeyError::UnexpectedTokenInKey));
}

#[test]
fn test_numeric_key() {
    let result = SyntaxValidator::validate_key(&[id("123")]);
    assert!(matches!(
        result.unwrap_err(),
        KeyError::KeyCannotBeNumeric { key_part } if key_part == "123"
    ));
}

#[test]
fn value_test_valid() {
    assert!(SyntaxValidator::validate_value(&[id("value")]).is_ok());
    assert!(SyntaxValidator::validate_value(&[quoted("value")]).is_ok());
    assert!(SyntaxValidator::validate_value(&[id("123")]).is_ok());
    assert!(SyntaxValidator::validate_value(&[id("123"), Dot, id("456")]).is_ok());
    assert!(SyntaxValidator::validate_value(&[Dot, id("123")]).is_ok());
    let tokens: Vec<Token> = vec![];
    assert!(SyntaxValidator::validate_value(&tokens).is_ok());
}

#[test]
fn test_multiple_non_numeric_idents() {
    let result = SyntaxValidator::validate_value(&[id("value1"), id("value2")]);
    assert!(matches!(result, Err(ValueError::MultipleNonNumericIdents)));
}

#[test]
fn test_multiple_quoted_idents() {
    let result = SyntaxValidator::validate_value(&[quoted("value1"), quoted("value2")]);
    assert!(matches!(result, Err(ValueError::MultipleQuotedIdents)));
}

#[test]
fn test_multiple_mixed_idents() {
    let result = SyntaxValidator::validate_value(&[id("value1"), quoted("value2")]);
    assert!(matches!(result, Err(ValueError::MultipleMixedIdents)));
    let result = SyntaxValidator::validate_value(&[id("123"), quoted("value2")]);
    assert!(matches!(result, Err(ValueError::MultipleMixedIdents)));
    let result = SyntaxValidator::validate_value(&[quoted("value2"), id("123")]);
    assert!(matches!(result, Err(ValueError::MultipleMixedIdents)));
    let result = SyntaxValidator::validate_value(&[quoted("value2"), id("value1")]);
    assert!(matches!(result, Err(ValueError::MultipleMixedIdents)));
}

#[test]
fn test_multiple_dots() {
    let result = SyntaxValidator::validate_value(&[id("123"), Dot, id("456"), Dot, id("789")]);
    assert!(matches!(result, Err(ValueError::MultipleDots)));
    let result = SyntaxValidator::validate_value(&[id("123"), Dot, Dot, id("789")]);
    assert!(matches!(result, Err(ValueError::MultipleDots)));
    let result = SyntaxValidator::validate_value(&[Dot, Dot, id("789")]);
    assert!(matches!(result, Err(ValueError::MultipleDots)));
    let result = SyntaxValidator::validate_value(&[Dot, Dot]);
    assert!(matches!(result, Err(ValueError::MultipleDots)));
}

#[test]
fn test_invalid_value_format() {
    let result = SyntaxValidator::validate_value(&[Dot]);
    assert!(matches!(result, Err(ValueError::InvalidValueFormat)));
    let result = SyntaxValidator::validate_value(&[id("123"), Dot]);
    assert!(matches!(result, Err(ValueError::InvalidValueFormat)));
    let result = SyntaxValidator::validate_value(&[id("123"), id("aaa")]);
    assert!(matches!(result, Err(ValueError::InvalidValueFormat)));
    let result = SyntaxValidator::validate_value(&[id("123"), id("456")]);
    assert!(matches!(result, Err(ValueError::InvalidValueFormat)));
    let result = SyntaxValidator::validate_value(&[id("123"), Dot, id("456"), id("789")]);
    assert!(matches!(result, Err(ValueError::InvalidValueFormat)));
}

#[test]
fn value_dot_before_quoted_is_invalid_format() {
    let result = SyntaxValidator::validate_value(&[Dot, quoted("abc")]);
    assert!(matches!(result, Err(ValueError::InvalidValueFormat)));
}

#[test]
fn line_structure_test_valid() {
    let tokens = vec![id("key"), Separator, id("value")];
    assert!(TokenValidator::validate_line_structure(&tokens).is_ok());
    let tokens = vec![id("key"), Dot, id("subkey"), Separator, id("value")];
    assert!(TokenValidator::validate_line_structure(&tokens).is_ok());
    let tokens = vec![id("key"), Separator, quoted("value")];
    assert!(TokenValidator::validate_line_structure(&tokens).is_ok());
}

#[test]
fn test_missing_equal() {
    let tokens = vec![id("key"), id("value")];
    let result = TokenValidator::validate_line_structure(&tokens);
    assert!(matches!(
        result.unwrap_err(),
        TokenValidationError::LineStructure(LineStructureError::MissingSeparators)
    ));
}

#[test]
fn test_multiple_equals() {
    let tokens = vec![id("key"), Separator, id("value1"), Separator, id("value2")];
    let result = TokenValidator::validate_line_structure(&tokens);
    assert!(matches!(
        result.unwrap_err(),
        TokenValidationError::LineStructure(LineStructureError::MultipleSeparators)
    ));
    let tokens = vec![id("key"), Separator, Separator, id("value")];
    let result = TokenValidator::validate_line_structure(&tokens);
    assert!(matches!(
        result.unwrap_err(),
        TokenValidationError::LineStructure(LineStructureError::MultipleSeparators)
    ));
}

#[test]
fn test_missing_left_side() {
    let tokens = vec![Separator, id("value"), Newline];
    let result = TokenValidator::validate_line_structure(&tokens);
    assert!(matches!(
        result.unwrap_err(),
        TokenValidationError::LineStructure(LineStructureError::MissingLeftSide)
    ));
}

#[test]
fn test_left_side_must_be_ident() {
    let tokens = vec![quoted("key"), Separator, id("value"), Newline];
    let result = TokenValidator::validate_line_structure(&tokens);
    assert!(matches!(
        result.unwrap_err(),
        TokenValidationError::LineStructure(LineStructureError::LeftSideMustBeIdent)
    ));
    let tokens = vec![Dot, Separator, id("value"), Newline];
    let result = TokenValidator::validate_line_structure(&tokens);
    assert!(matches!(
        result.unwrap_err(),
        TokenValidationError::LineStructure(LineStructureError::LeftSideMustBeIdent)
    ));
}

#[test]
fn test_right_side_contains_invalid_tokens() {
    let tokens = vec![id("key"), Separator, Dot, Newline];
    let result = TokenValidator::validate_line_structure(&tokens);
    assert!(matches!(
        result.unwrap_err(),
        TokenValidationError::LineStructure(LineStructureError::RightSideContainsInvalidTokens)
    ));
}

#[test]
fn test_syntax_validator() {
    let tokens = vec![
        id("key1"),
        Separator,
        id("value1"),
        Newline,
        id("key2"),
        Separator,
        quoted("value2"),
        Newline,
        Eof,
    ];
    let syntax = TokenValidator::validate(tokens).unwrap();
    assert_eq!(syntax.patterns.len(), 2);
    assert_eq!(syntax.patterns[0].key_parts, vec!["key1".to_string()]);
    assert_eq!(syntax.patterns[0].value, SyntaxValue::Plain("value1".to_string()));
    assert_eq!(syntax.patterns[1].key_parts, vec!["key2".to_string()]);
    assert_eq!(syntax.patterns[1].value, SyntaxValue::Quoted("value2".to_string()));

    let tokens: Vec<Token> = vec![Eof];
    let empty_syntax = TokenValidator::validate(tokens).unwrap();
    assert!(empty_syntax.patterns.is_empty());

    let tokens = vec![id("key1"), Dot, id("subkey"), Separator, id("value1"), Newline];
    let syntax = TokenValidator::validate(tokens).unwrap();
    assert_eq!(syntax.patterns.len(), 1);
    assert_eq!(syntax.patterns[0].key_parts, vec!["key1".to_string(), "subkey".to_string()]);
    assert_eq!(syntax.patterns[0].value, SyntaxValue::Plain("value1".to_string()));

    let tokens = vec![id("key"), Separator, quoted("value1"), Newline];
    let syntax = TokenValidator::validate(tokens).unwrap();
    assert_eq!(syntax.patterns.len(), 1);
    assert_eq!(syntax.patterns[0].key_parts, vec!["key".to_string()]);
    assert_eq!(syntax.patterns[0].value, SyntaxValue::Quoted("value1".to_string()));

    let tokens = vec![id("key"), Separator, id("0"), Dot, id("1"), Newline];
    let syntax = TokenValidator::validate(tokens).unwrap();
    assert_eq!(syntax.patterns.len(), 1);
    assert_eq!(syntax.patterns[0].key_parts, vec!["key".to_string()]);
    assert_eq!(syntax.patterns[0].value, SyntaxValue::Plain("0.1".to_string()));

    let tokens = vec![id("key"), Separator, Dot, id("1"), Newline];
    let syntax = TokenValidator::validate(tokens).unwrap();
    assert_eq!(syntax.patterns.len(), 1);
    assert_eq!(syntax.patterns[0].key_parts, vec!["key".to_string()]);
    assert_eq!(syntax.patterns[0].value, SyntaxValue::Plain(".1".to_string()));

    let tokens = vec![id("key"), Separator, Newline];
    let syntax = TokenValidator::validate(tokens).unwrap();
    assert_eq!(syntax.patterns.len(), 1);
    assert_eq!(syntax.patterns[0].key_parts, vec!["key".to_string()]);
    assert_eq!(syntax.patterns[0].value, SyntaxValue::Plain("".to_string()));

    let tokens = vec![id("key"), Separator, id("-1"), Newline];
    let syntax = TokenValidator::validate(tokens).unwrap();
    assert_eq!(syntax.patterns.len(), 1);
    assert_eq!(syntax.patterns[0].key_parts, vec!["key".to_string()]);
    assert_eq!(syntax.patterns[0].value, SyntaxValue::Plain("-1".to_string()));
}

#[test]
fn mod_test_invalid_syntax() {
    let invalid_tokens = vec![id("invalid"), Newline];
    assert!(TokenValidator::validate(invalid_tokens).is_err());
}

#[test]
fn first_failing_line_decides_the_error() {
    let tokens = vec![id("a"), Separator, id("1"), Newline, id("b"), Newline, Separator, Eof];
    let result = TokenValidator::validate(tokens);
    assert!(matches!(
        result,
        Err(TokenValidationError::LineStructure(LineStructureError::MissingSeparators))
    ));
}

#[test]
fn duplicates_test_valid() {
    let syntax = Syntax { patterns: vec![pattern(&["key1"], "value1"), pattern(&["key2"], "value2")] };
    assert!(SyntaxValidator::validate_duplicate_keys(&syntax).is_ok());
    let syntax = Syntax {
        patterns: vec![
            pattern(&["key1", "subkey1"], "value1"),
            pattern(&["key1", "subkey2"], "value2"),
            pattern(&["key2", "subkey1"], "value3"),
        ],
    };
    assert!(SyntaxValidator::validate_duplicate_keys(&syntax).is_ok());
}

#[test]
fn test_duplicate_keys() {
    let syntax = Syntax { patterns: vec![pattern(&["key1"], "value1"), pattern(&["key1"], "value2")] };
    assert!(matches!(
        SyntaxValidator::validate_duplicate_keys(&syntax),
        Err(SyntaxValidationError::Duplicate { key }) if key == "key1"
    ));
    let syntax = Syntax {
        patterns: vec![
            pattern(&["key1", "subkey1"], "value1"),
            pattern(&["key1", "subkey1"], "value2"),
        ],
    };
    assert!(matches!(
        SyntaxValidator::validate_duplicate_keys(&syntax),
        Err(SyntaxValidationError::Duplicate { key }) if key == "key1.subkey1"
    ));
}

#[test]
fn test_valid_key_paths() {
    let syntax = Syntax { patterns: vec![pattern(&["key1"], "value1"), pattern(&["key2"], "value2")] };
    assert!(SyntaxValidator::validate_key_path_conflicts(&syntax).is_ok());
    let syntax = Syntax {
        patterns: vec![
            pattern(&["key1", "subkey1"], "value1"),
            pattern(&["key1", "subkey2"], "value2"),
            pattern(&["key2", "subkey1"], "value3"),
        ],
    };
    assert!(SyntaxValidator::validate_key_path_conflicts(&syntax).is_ok());
}

#[test]
fn test_invalid_key_paths() {
    let syntax = Syntax {
        patterns: vec![pattern(&["key1"], "value1"), pattern(&["key1", "subkey"], "value2")],
    };
    assert!(SyntaxValidator::validate_key_path_conflicts(&syntax).is_err());
    let syntax = Syntax {
        patterns: vec![
            pattern(&["key1"], "value1"),
            pattern(&["key1", "subkey", "subsubkey"], "value2"),
        ],
    };
    assert!(SyntaxValidator::validate_key_path_conflicts(&syntax).is_err());
}

#[test]
fn conflict_reports_the_parent_path() {
    let syntax = Syntax {
        patterns: vec![pattern(&["a", "b"], "1"), pattern(&["a"], "2"), pattern(&["ab"], "3")],
    };
    assert!(matches!(
        SyntaxValidator::validate_key_path_conflicts(&syntax),
        Err(SyntaxValidationError::KeyPathConflict { key }) if key == "a"
    ));
}

#[test]
fn schema_rule_rejects_quoted_values() {
    let syntax = Syntax {
        patterns: vec![Pattern {
            key_parts: vec!["a".to_string()],
            value: SyntaxValue::Quoted("string".to_string()),
        }],
    };
    assert!(SyntaxValidator::validate::<sorbe_tpl::ConfigRule>(&syntax).is_ok());
    assert!(matches!(
        SyntaxValidator::validate::<sorbe_tpl::SchemaRule>(&syntax),
        Err(SyntaxValidationError::QuotedNotAllowed)
    ));
}
